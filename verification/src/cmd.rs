//! Parsing a command line: quoting, escapes, redirections and the kind of
//! command named.

use vstd::prelude::*;
use vstd::string::StrSliceExecFns;
use vstd::string::StringSliceAdditionalSpecFns;
use vstd::utf8::{
    decode_utf8, encode_utf8, encode_utf8_decode_utf8, encode_utf8_valid_utf8, is_ascii_chars,
    is_ascii_chars_encode_utf8, is_ascii_chars_nat_bound,
    is_char_boundary, is_char_boundary_iff_not_is_continuation_byte,
    is_char_boundary_start_end_of_seq, valid_utf8, valid_utf8_split,
};
use crate::text::{
    char_len_utf8, chars_of, is_whitespace, is_ws, join, join_all, join_range,
    lemma_join_split, lemma_split_on_nonempty, lemma_trimmed_first, lemma_trimmed_idempotent, split_chars, split_on,
    push_str, str_eq, string_of, trim,
    trimmed,
    utf8_len_seq,
};

verus! {

/// What a command name denotes.
#[derive(PartialEq, Eq, Structural, Debug, Clone, Copy)]
pub enum Type {
    BuiltIn,
    PathExec,
    Invalid,
}

/// The kind of quote that delimits a quoted span.
#[derive(PartialEq, Eq, Structural, Debug, Clone, Copy)]
pub enum QuoteType {
    Single,
    Double,
}

/// Where the output of a command is redirected.
#[derive(PartialEq, Eq, Structural, Debug, Clone, Copy)]
pub enum Target {
    Stdout,
    Stderr,
    StdoutAppend,
    StderrAppend,
    NoRedirect,
}

/// The names of the commands that the shell runs itself.
pub open spec fn is_builtin_name(s: Seq<char>) -> bool {
    ||| s == "echo"@
    ||| s == "exit"@
    ||| s == "type"@
    ||| s == "pwd"@
    ||| s == "cd"@
}

/// Whether `name` is one of the shell's own commands.
pub fn is_builtin(name: &str) -> (b: bool)
    ensures
        b == is_builtin_name(name@),
{
    str_eq(name, "echo") || str_eq(name, "exit") || str_eq(name, "type") || str_eq(name, "pwd")
        || str_eq(name, "cd")
}

/// The names of the shell's own commands.
pub fn builtin_names() -> (r: Vec<String>)
    ensures
        r.deep_view() == seq!["echo"@, "exit"@, "type"@, "pwd"@, "cd"@],
        forall|i: int| 0 <= i < r.len() ==> is_builtin_name(#[trigger] r[i]@),
{
    let mut r: Vec<String> = Vec::new();
    r.push("echo".to_string());
    r.push("exit".to_string());
    r.push("type".to_string());
    r.push("pwd".to_string());
    r.push("cd".to_string());
    assert(r.deep_view() =~= seq!["echo"@, "exit"@, "type"@, "pwd"@, "cd"@]);
    r
}

/// A quote character.
pub open spec fn is_quote(c: char) -> bool {
    c == '\'' || c == '"'
}

/// The state of the quote scanner: whether the previous character was an
/// unconsumed backslash, the position of the quote that is open, and the
/// spans `(start, end)` closed so far.
pub type QuoteState = (bool, Option<int>, Seq<(int, int)>);

/// One step of the quote scanner at position `i` of `s`. A backslash makes
/// the next character inert; a quote opens a span when none is open, and
/// closes the open span when it is the same kind of quote; a quote of the
/// other kind inside a span is ignored.
pub open spec fn quote_step(st: QuoteState, s: Seq<char>, i: int) -> QuoteState {
    let c = s[i];
    if st.0 {
        (false, st.1, st.2)
    } else if c == '\\' {
        (true, st.1, st.2)
    } else if is_quote(c) {
        match st.1 {
            Option::None => (false, Some(i), st.2),
            Option::Some(o) => if s[o] == c {
                (false, Option::None, st.2.push((o, i)))
            } else {
                st
            },
        }
    } else {
        st
    }
}

/// The scanner's state after the first `n` characters of `s`.
pub open spec fn quote_scan(s: Seq<char>, n: int) -> QuoteState
    decreases n,
{
    if n <= 0 {
        (false, Option::None, Seq::empty())
    } else {
        quote_step(quote_scan(s, n - 1), s, n - 1)
    }
}

/// The balanced quoted spans of `s`, as pairs of the positions of the
/// opening and the closing quote; a quote left open at the end is dropped.
pub open spec fn quote_spans(s: Seq<char>) -> Seq<(int, int)> {
    quote_scan(s, s.len() as int).2
}

/// The UTF-8 bytes of the text `s`.
pub open spec fn bytes_of(s: Seq<char>) -> Seq<u8> {
    encode_utf8(s)
}

/// The kind of the quoted span that starts at position `a` of `s`, told by
/// the byte at position `a` of the text's UTF-8 bytes: the scanner counts
/// characters, and the span is cut out by bytes.
pub open spec fn span_kind(s: Seq<char>, a: int) -> QuoteType {
    if bytes_of(s)[a] == 39u8 {
        QuoteType::Single
    } else {
        QuoteType::Double
    }
}

/// The span `sp` of `s`, its character positions taken as byte positions,
/// can be cut out: its two ends fall on character boundaries, and so does
/// the byte after its start, which is the byte that tells its kind.
pub open spec fn span_cuttable(s: Seq<char>, sp: (int, int)) -> bool {
    &&& is_char_boundary(bytes_of(s), sp.0)
    &&& is_char_boundary(bytes_of(s), sp.0 + 1)
    &&& is_char_boundary(bytes_of(s), sp.1 + 1)
}

/// Every quoted span of `s` can be cut out (see `span_cuttable`).
pub open spec fn spans_cuttable(s: Seq<char>) -> bool {
    forall|k: int| 0 <= k < quote_spans(s).len() ==> span_cuttable(s, #[trigger] quote_spans(s)[k])
}

/// The text of the bytes `a..b` of `s`.
pub open spec fn byte_text(s: Seq<char>, a: int, b: int) -> Seq<char> {
    decode_utf8(bytes_of(s).subrange(a, b))
}

/// Spans that lie in `0..n`, in order, disjoint, each opened and closed by
/// the same quote character.
pub open spec fn spans_ordered(s: Seq<char>, spans: Seq<(int, int)>, n: int) -> bool {
    &&& forall|k: int|
        0 <= k < spans.len() ==> {
            &&& 0 <= (#[trigger] spans[k]).0 < spans[k].1 < n
            &&& is_quote(s[spans[k].0])
            &&& s[spans[k].1] == s[spans[k].0]
        }
    &&& forall|k: int, l: int| 0 <= k < l < spans.len() ==> (#[trigger] spans[k]).1 < (#[trigger] spans[l]).0
}

proof fn lemma_quote_scan_wf(s: Seq<char>, n: int)
    requires
        0 <= n <= s.len(),
    ensures
        spans_ordered(s, quote_scan(s, n).2, n),
        quote_scan(s, n).1 matches Some(o) ==> {
            &&& 0 <= o < n
            &&& is_quote(s[o])
            &&& forall|k: int| 0 <= k < quote_scan(s, n).2.len() ==> (#[trigger] quote_scan(s, n).2[k]).1 < o
        },
    decreases n,
{
    if n > 0 {
        lemma_quote_scan_wf(s, n - 1);
    }
}

/// The number of backslashes that stand right before position `k` of `s`.
pub open spec fn backslashes_before(s: Seq<char>, k: int) -> nat
    decreases k,
{
    if k <= 0 || k > s.len() || s[k - 1] != '\\' {
        0
    } else {
        1 + backslashes_before(s, k - 1)
    }
}

/// The character at position `k` of `s` is escaped: an odd number of
/// backslashes stands right before it.
pub open spec fn is_escaped(s: Seq<char>, k: int) -> bool {
    backslashes_before(s, k) % 2 == 1
}

proof fn lemma_quote_scan_escape(s: Seq<char>, n: int)
    requires
        0 <= n <= s.len(),
    ensures
        quote_scan(s, n).0 == is_escaped(s, n),
    decreases n,
{
    if n > 0 {
        lemma_quote_scan_escape(s, n - 1);
    }
}

proof fn lemma_quote_scan_unescaped(s: Seq<char>, n: int)
    requires
        0 <= n <= s.len(),
    ensures
        forall|k: int|
            0 <= k < quote_scan(s, n).2.len() ==> !is_escaped(s, (#[trigger] quote_scan(s, n).2[k]).0)
                && !is_escaped(s, quote_scan(s, n).2[k].1),
        quote_scan(s, n).1 matches Some(o) ==> !is_escaped(s, o),
    decreases n,
{
    if n > 0 {
        lemma_quote_scan_unescaped(s, n - 1);
        lemma_quote_scan_escape(s, n - 1);
        let prev = quote_scan(s, n - 1);
        let cur = quote_scan(s, n);
        assert forall|k: int| 0 <= k < cur.2.len() implies !is_escaped(s, (#[trigger] cur.2[k]).0)
            && !is_escaped(s, cur.2[k].1) by {
            if k < prev.2.len() {
                assert(cur.2[k] == prev.2[k]);
            }
        }
    }
}

/// The quoted spans of `s` are well formed: each starts and ends with the
/// same quote character, the one after the other, neither of them escaped
/// by a backslash, and the spans come in order, each ending before the next
/// one starts (so they never overlap or nest).
pub proof fn lemma_quote_spans_law(s: Seq<char>)
    ensures
        forall|k: int|
            0 <= k < quote_spans(s).len() ==> {
                let sp = #[trigger] quote_spans(s)[k];
                &&& 0 <= sp.0 < sp.1 < s.len()
                &&& is_quote(s[sp.0])
                &&& s[sp.1] == s[sp.0]
                &&& !is_escaped(s, sp.0)
                &&& !is_escaped(s, sp.1)
            },
        forall|k: int, l: int|
            0 <= k < l < quote_spans(s).len() ==> (#[trigger] quote_spans(s)[k]).1 < (
            #[trigger] quote_spans(s)[l]).0,
{
    lemma_quote_scan_wf(s, s.len() as int);
    lemma_quote_scan_unescaped(s, s.len() as int);
}

/// On ASCII text every quoted span can be cut out, its text is the
/// characters from its opening to its closing quote, and its kind is that
/// of its opening quote.
pub proof fn lemma_ascii_spans(s: Seq<char>)
    requires
        is_ascii_chars(s),
    ensures
        spans_cuttable(s),
        forall|k: int|
            0 <= k < quote_spans(s).len() ==> {
                let sp = #[trigger] quote_spans(s)[k];
                &&& byte_text(s, sp.0, sp.1 + 1) == s.subrange(sp.0, sp.1 + 1)
                &&& span_kind(s, sp.0) == (if s[sp.0] == '\'' {
                    QuoteType::Single
                } else {
                    QuoteType::Double
                })
            },
{
    let bs = bytes_of(s);
    is_ascii_chars_encode_utf8(s);
    is_ascii_chars_nat_bound(s);
    encode_utf8_valid_utf8(s);
    is_char_boundary_start_end_of_seq(bs);
    lemma_quote_scan_wf(s, s.len() as int);
    assert forall|j: int| 0 <= j <= s.len() implies is_char_boundary(bs, j) by {
        if j < s.len() {
            is_char_boundary_iff_not_is_continuation_byte(bs, j);
            assert((s[j] as nat) < 128);
            assert(bs[j] == s[j] as u8);
        }
    }
    assert forall|k: int| 0 <= k < quote_spans(s).len() implies {
        let sp = #[trigger] quote_spans(s)[k];
        &&& span_cuttable(s, sp)
        &&& byte_text(s, sp.0, sp.1 + 1) == s.subrange(sp.0, sp.1 + 1)
        &&& span_kind(s, sp.0) == (if s[sp.0] == '\'' {
            QuoteType::Single
        } else {
            QuoteType::Double
        })
    } by {
        let sp = quote_spans(s)[k];
        let sub = s.subrange(sp.0, sp.1 + 1);
        assert(is_ascii_chars(sub));
        is_ascii_chars_encode_utf8(sub);
        assert(bs.subrange(sp.0, sp.1 + 1) =~= encode_utf8(sub));
        encode_utf8_decode_utf8(sub);
        assert(is_quote(s[sp.0]));
        assert(bs[sp.0] == s[sp.0] as u8);
    }
}

/// The positions in `spans` are those of `q`.
pub open spec fn spans_match(spans: Seq<(usize, usize)>, q: Seq<(int, int)>) -> bool {
    &&& spans.len() == q.len()
    &&& forall|k: int|
        0 <= k < spans.len() ==> (#[trigger] spans[k]).0 == q[k].0 && spans[k].1 == q[k].1
}

/// The balanced quoted spans of the characters `v`.
fn scan_quotes(v: &Vec<char>) -> (spans: Vec<(usize, usize)>)
    ensures
        spans_match(spans@, quote_spans(v@)),
        spans_ordered(v@, quote_spans(v@), v@.len() as int),
{
    let n = v.len();
    let mut escape = false;
    let mut open: Option<usize> = None;
    let mut spans: Vec<(usize, usize)> = Vec::new();
    let mut i: usize = 0;
    while i < n
        invariant
            i <= n == v.len(),
            escape == quote_scan(v@, i as int).0,
            open matches Some(o) ==> quote_scan(v@, i as int).1 == Some(o as int),
            open is None ==> quote_scan(v@, i as int).1 is None,
            spans_match(spans@, quote_scan(v@, i as int).2),
        decreases n - i,
    {
        proof {
            lemma_quote_scan_wf(v@, i as int);
        }
        let c = v[i];
        if escape {
            escape = false;
        } else if c == '\\' {
            escape = true;
        } else if c == '\'' || c == '"' {
            match open {
                None => {
                    open = Some(i);
                },
                Some(o) => {
                    if v[o] == c {
                        spans.push((o, i));
                        open = None;
                    }
                },
            }
        }
        i = i + 1;
    }
    proof {
        lemma_quote_scan_wf(v@, n as int);
    }
    spans
}

/// A position that is a character boundary of the valid UTF-8 bytes `b`
/// from `j` on is one of the bytes from `a` on, when `a` is one too.
proof fn lemma_boundary_in_suffix(b: Seq<u8>, a: int, j: int)
    requires
        valid_utf8(b),
        0 <= a <= j <= b.len(),
        is_char_boundary(b, a),
        is_char_boundary(b, j),
    ensures
        valid_utf8(b.subrange(a, b.len() as int)),
        is_char_boundary(b.subrange(a, b.len() as int), j - a),
{
    valid_utf8_split(b, a);
    let t = b.subrange(a, b.len() as int);
    if j < b.len() {
        is_char_boundary_iff_not_is_continuation_byte(b, j);
        is_char_boundary_iff_not_is_continuation_byte(t, j - a);
        assert(t[j - a] == b[j]);
    } else {
        is_char_boundary_start_end_of_seq(t);
    }
}

/// A character boundary of valid UTF-8 bytes lies within them.
proof fn lemma_boundary_in_range(b: Seq<u8>, j: int)
    requires
        valid_utf8(b),
        is_char_boundary(b, j),
    ensures
        0 <= j <= b.len(),
{
}

/// The bytes `a..=b` of `input`, cut at character boundaries.
fn cut_span<'a>(input: &'a str, a: usize, b: usize) -> (text: &'a str)
    requires
        a <= b < input@.len(),
        b < usize::MAX,
        is_char_boundary(bytes_of(input@), a as int),
        is_char_boundary(bytes_of(input@), b + 1),
    ensures
        text@ == byte_text(input@, a as int, b + 1),
{
    let ghost bs = bytes_of(input@);
    proof {
        encode_utf8_valid_utf8(input@);
        lemma_boundary_in_range(bs, b + 1);
        lemma_boundary_in_suffix(bs, a as int, b + 1);
    }
    let (_, tail) = input.split_at(a);
    assert(tail.spec_bytes() =~= bs.subrange(a as int, bs.len() as int));
    let (text, _) = tail.split_at(b + 1 - a);
    proof {
        encode_utf8_decode_utf8(text@);
        assert(text.spec_bytes() =~= bs.subrange(a as int, b + 1));
    }
    text
}

/// Finds the balanced quoted spans of `input`: for each, the positions of
/// its opening and closing quote (counted in characters), the text between
/// them, quotes included, and the kind of quote. Backslash escapes a quote.
/// The text is cut out, and the kind read, at those positions taken as byte
/// positions, so that they match the characters where `input` is ASCII up
/// to the span's end.
pub fn find_quotes(input: &str) -> (r: Vec<(usize, usize, &str, QuoteType)>)
    requires
        spans_cuttable(input@),
    ensures
        r.len() == quote_spans(input@).len(),
        forall|k: int|
            0 <= k < r.len() ==> {
                let sp = #[trigger] quote_spans(input@)[k];
                &&& r[k].0 == sp.0
                &&& r[k].1 == sp.1
                &&& r[k].2@ == byte_text(input@, sp.0, sp.1 + 1)
                &&& r[k].3 == span_kind(input@, sp.0)
            },
        spans_ordered(input@, quote_spans(input@), input@.len() as int),
{
    let v = chars_of(input);
    let n = v.len();
    let spans = scan_quotes(&v);
    let kinds = span_kinds(input, &spans);
    let mut r: Vec<(usize, usize, &str, QuoteType)> = Vec::new();
    let mut k: usize = 0;
    while k < spans.len()
        invariant
            k <= spans@.len() == quote_spans(input@).len(),
            v@ == input@,
            n == v.len(),
            spans_cuttable(input@),
            spans_ordered(input@, quote_spans(input@), n as int),
            spans_match(spans@, quote_spans(input@)),
            kinds@.len() == spans@.len(),
            forall|j: int| 0 <= j < kinds@.len() ==> #[trigger] kinds@[j] == span_kind(input@, spans@[j].0 as int),
            r.len() == k,
            forall|j: int|
                0 <= j < k ==> {
                    let sp = #[trigger] quote_spans(input@)[j];
                    &&& r[j].0 == sp.0
                    &&& r[j].1 == sp.1
                    &&& r[j].2@ == byte_text(input@, sp.0, sp.1 + 1)
                    &&& r[j].3 == span_kind(input@, sp.0)
                },
        decreases spans@.len() - k,
    {
        let (a, b) = spans[k];
        let ghost sp = quote_spans(input@)[k as int];
        assert(sp.0 == a && sp.1 == b);
        assert(0 <= sp.0 < sp.1 < n);
        assert(span_cuttable(input@, sp));
        let text = cut_span(input, a, b);
        r.push((a, b, text, kinds[k]));
        k = k + 1;
    }
    r
}

/// The kinds of the spans `spans` of `input` (see `span_kind`).
fn span_kinds(input: &str, spans: &Vec<(usize, usize)>) -> (kinds: Vec<QuoteType>)
    requires
        spans_cuttable(input@),
        spans_match(spans@, quote_spans(input@)),
    ensures
        kinds@.len() == spans@.len(),
        forall|j: int| 0 <= j < kinds@.len() ==> #[trigger] kinds@[j] == span_kind(input@, spans@[j].0 as int),
{
    let bytes = input.as_bytes();
    proof {
        encode_utf8_valid_utf8(input@);
    }
    let mut kinds: Vec<QuoteType> = Vec::new();
    let mut j: usize = 0;
    while j < spans.len()
        invariant
            j <= spans.len(),
            bytes@ == bytes_of(input@),
            valid_utf8(bytes_of(input@)),
            spans_cuttable(input@),
            spans_match(spans@, quote_spans(input@)),
            kinds@.len() == j,
            forall|m: int| 0 <= m < j ==> #[trigger] kinds@[m] == span_kind(input@, spans@[m].0 as int),
        decreases spans.len() - j,
    {
        let a = spans[j].0;
        assert(span_cuttable(input@, quote_spans(input@)[j as int]));
        proof {
            lemma_boundary_in_range(bytes@, a + 1);
        }
        let kind = if bytes[a] == 39u8 { QuoteType::Single } else { QuoteType::Double };
        kinds.push(kind);
        j = j + 1;
    }
    kinds
}


/// The first position at or after `k` where `s` holds `c`.
pub open spec fn index_of_from(s: Seq<char>, c: char, k: int) -> Option<int>
    decreases s.len() - k,
{
    if k < 0 || k >= s.len() {
        Option::None
    } else if s[k] == c {
        Some(k)
    } else {
        index_of_from(s, c, k + 1)
    }
}

pub proof fn lemma_index_of_from(s: Seq<char>, c: char, k: int)
    requires
        0 <= k,
    ensures
        index_of_from(s, c, k) matches Some(p) ==> k <= p < s.len() && s[p] == c
            && forall|j: int| k <= j < p ==> s[j] != c,
        index_of_from(s, c, k) is None ==> forall|j: int| k <= j < s.len() ==> s[j] != c,
    decreases s.len() - k,
{
    if k < s.len() {
        lemma_index_of_from(s, c, k + 1);
    }
}

/// The first position where `s` holds `c`.
pub open spec fn index_of(s: Seq<char>, c: char) -> Option<int> {
    index_of_from(s, c, 0)
}

/// The first position where `v` holds `c`.
pub(crate) fn find_char(v: &Vec<char>, c: char) -> (r: Option<usize>)
    ensures
        r matches Some(p) ==> index_of(v@, c) == Some(p as int) && p < v.len() && v@[p as int] == c,
        r is None ==> index_of(v@, c) is None,
{
    proof {
        lemma_index_of_from(v@, c, 0);
    }
    let mut k: usize = 0;
    while k < v.len()
        invariant
            k <= v.len(),
            index_of(v@, c) == index_of_from(v@, c, k as int),
        decreases v.len() - k,
    {
        if v[k] == c {
            return Some(k);
        }
        k = k + 1;
    }
    None
}

/// Whether some span starts or ends at `i`, looking at the spans from `k` on.
pub open spec fn is_span_end_from(q: Seq<(int, int)>, i: int, k: int) -> bool
    decreases q.len() - k,
{
    if k < 0 || k >= q.len() {
        false
    } else if q[k].0 == i || q[k].1 == i {
        true
    } else {
        is_span_end_from(q, i, k + 1)
    }
}

/// Whether some span starts or ends at `i`.
pub open spec fn is_span_end(q: Seq<(int, int)>, i: int) -> bool {
    is_span_end_from(q, i, 0)
}

/// The first span, from `k` on, that holds `i` strictly inside it.
pub open spec fn span_around_from(q: Seq<(int, int)>, i: int, k: int) -> Option<int>
    decreases q.len() - k,
{
    if k < 0 || k >= q.len() {
        Option::None
    } else if q[k].0 < i && i < q[k].1 {
        Some(k)
    } else {
        span_around_from(q, i, k + 1)
    }
}

/// The first span that holds `i` strictly inside it.
pub open spec fn span_around(q: Seq<(int, int)>, i: int) -> Option<int> {
    span_around_from(q, i, 0)
}

/// Whether a span of `spans` starts or ends at `i`.
fn span_end_at(spans: &Vec<(usize, usize)>, Ghost(q): Ghost<Seq<(int, int)>>, i: usize) -> (b: bool)
    requires
        spans_match(spans@, q),
    ensures
        b == is_span_end(q, i as int),
{
    let mut k: usize = 0;
    while k < spans.len()
        invariant
            k <= spans.len(),
            spans_match(spans@, q),
            is_span_end(q, i as int) == is_span_end_from(q, i as int, k as int),
        decreases spans.len() - k,
    {
        let (a, b) = spans[k];
        if a == i || b == i {
            return true;
        }
        k = k + 1;
    }
    false
}

/// The first span of `spans` that holds `i` strictly inside it.
fn span_around_at(spans: &Vec<(usize, usize)>, Ghost(q): Ghost<Seq<(int, int)>>, i: usize) -> (r: Option<usize>)
    requires
        spans_match(spans@, q),
    ensures
        r matches Some(k) ==> span_around(q, i as int) == Some(k as int) && k < spans.len(),
        r is None ==> span_around(q, i as int) is None,
{
    let mut k: usize = 0;
    while k < spans.len()
        invariant
            k <= spans.len(),
            spans_match(spans@, q),
            span_around(q, i as int) == span_around_from(q, i as int, k as int),
        decreases spans.len() - k,
    {
        let (a, b) = spans[k];
        if a < i && i < b {
            return Some(k);
        }
        k = k + 1;
    }
    None
}

/// The state of the word splitter: whether it is inside a quoted span, the
/// chunk being built, and the chunks finished so far.
pub type ChunkState = (bool, Seq<char>, Seq<Seq<char>>);

/// One step of the word splitter at position `i` of `r` (the text after the
/// command word), where `q` are the quoted spans of `r`. White space outside
/// quotes ends the chunk and starts a new one with a single space; a quote
/// that opens a span ends the chunk and starts one with the quote; a quote
/// that closes a span ends the chunk with it; the last character, when
/// it is neither, ends the chunk.
pub open spec fn chunk_step(st: ChunkState, r: Seq<char>, q: Seq<(int, int)>, i: int) -> ChunkState {
    let c = r[i];
    if is_ws(c) && !st.0 {
        (st.0, seq![' '], st.2.push(st.1))
    } else if is_span_end(q, i) {
        if st.0 {
            (false, Seq::empty(), st.2.push(st.1.push(c)))
        } else {
            (true, seq![c], st.2.push(st.1))
        }
    } else {
        let a = st.1.push(c);
        (st.0, a, if i == r.len() - 1 { st.2.push(a) } else { st.2 })
    }
}

/// The splitter's state after the first `n` characters of `r`, starting
/// from the chunk `head` followed by a space.
pub open spec fn chunk_scan(head: Seq<char>, r: Seq<char>, n: int) -> ChunkState
    decreases n,
{
    if n <= 0 {
        (false, Seq::empty(), seq![head.push(' ')])
    } else {
        chunk_step(chunk_scan(head, r, n - 1), r, quote_spans(r), n - 1)
    }
}

/// The chunks of a command line with a space at `p`: the command word with
/// a space, then the pieces of the rest as the splitter cuts them.
pub open spec fn chunks_at(s: Seq<char>, p: int) -> Seq<Seq<char>> {
    let r = s.skip(p + 1);
    chunk_scan(s.take(p), r, r.len() as int).2
}

/// The chunks of a command line; none when it holds no space.
pub open spec fn chunks(s: Seq<char>) -> Seq<Seq<char>> {
    match index_of(s, ' ') {
        Some(p) => chunks_at(s, p),
        Option::None => Seq::empty(),
    }
}

/// The command line can be split: the text after its first space is ASCII
/// (the splitter walks it by byte position) and its quoted spans can be cut
/// out (see `span_cuttable`).
pub open spec fn parse_args_pre(s: Seq<char>) -> bool {
    &&& spans_cuttable(s)
    &&& (index_of(s, ' ') matches Some(p) ==> is_ascii_chars(s.skip(p + 1)))
}

/// Whether `v` holds only ASCII characters from `lo` on.
fn ascii_from(v: &Vec<char>, lo: usize) -> (b: bool)
    requires
        lo <= v.len(),
    ensures
        b == is_ascii_chars(v@.skip(lo as int)),
{
    let mut i = lo;
    while i < v.len()
        invariant
            lo <= i <= v.len(),
            forall|k: int| lo <= k < i ==> '\0' <= #[trigger] v@[k] <= '\u{7f}',
        decreases v.len() - i,
    {
        if !('\0' <= v[i] && v[i] <= '\u{7f}') {
            assert(v@.skip(lo as int)[i - lo] == v@[i as int]);
            return false;
        }
        i = i + 1;
    }
    assert forall|k: int| 0 <= k < v@.skip(lo as int).len() implies '\0' <= #[trigger] v@.skip(
        lo as int,
    )[k] <= '\u{7f}' by {
        assert(v@.skip(lo as int)[k] == v@[k + lo]);
    }
    true
}

/// Whether the command line `input` can be split by `parse_args` (see
/// `parse_args_pre`); on the others the shell fails.
pub fn parse_args_defined(input: &str) -> (b: bool)
    ensures
        b == parse_args_pre(input@),
{
    let v = chars_of(input);
    let spans = scan_quotes(&v);
    let mut k: usize = 0;
    while k < spans.len()
        invariant
            k <= spans.len(),
            v@ == input@,
            spans_match(spans@, quote_spans(v@)),
            spans_ordered(v@, quote_spans(v@), v@.len() as int),
            forall|j: int| 0 <= j < k ==> span_cuttable(input@, #[trigger] quote_spans(input@)[j]),
        decreases spans.len() - k,
    {
        let (a, b) = spans[k];
        let ghost sp = quote_spans(input@)[k as int];
        assert(sp.0 == a && sp.1 == b);
        assert(0 <= sp.0 < sp.1 < v@.len());
        assert(b < v.len());
        if !(input.is_char_boundary(a) && input.is_char_boundary(a + 1) && input.is_char_boundary(
            b + 1,
        )) {
            assert(!span_cuttable(input@, sp));
            return false;
        }
        k = k + 1;
    }
    match find_char(&v, ' ') {
        Some(p) => ascii_from(&v, p + 1),
        None => true,
    }
}

/// The chunks that the command line `input` is cut into before directory
/// names in it are resolved: the command word with a space, then one chunk
/// per word or quoted span of the rest, each word after the first starting
/// with a space. Empty when `input` holds no space.
pub fn arg_chunks(input: &str) -> (r: Vec<String>)
    requires
        parse_args_pre(input@),
    ensures
        r.deep_view() == chunks(input@),
{
    let v = chars_of(input);
    match find_char(&v, ' ') {
        None => Vec::new(),
        Some(p) => {
            let mut head = string_of(&v, 0, p);
            head.push(' ');
            let ghost r = input@.skip(p + 1);
            let mut rest: Vec<char> = Vec::new();
            let mut j = p + 1;
            while j < v.len()
                invariant
                    p < j <= v.len(),
                    v@ == input@,
                    rest@ == v@.subrange(p + 1, j as int),
                decreases v.len() - j,
            {
                rest.push(v[j]);
                j = j + 1;
            }
            assert(rest@ =~= r);
            let q = scan_quotes(&rest);
            let mut arguments: Vec<String> = Vec::new();
            arguments.push(head);
            let mut argument = String::new();
            let mut in_quote = false;
            let n = rest.len();
            let mut i: usize = 0;
            assert(arguments.deep_view() =~= seq![input@.take(p as int).push(' ')]);
            while i < n
                invariant
                    i <= n == rest.len(),
                    rest@ == r,
                    spans_match(q@, quote_spans(r)),
                    (in_quote, argument@, arguments.deep_view()) == chunk_scan(
                        input@.take(p as int),
                        r,
                        i as int,
                    ),
                decreases n - i,
            {
                let c = rest[i];
                if is_whitespace(c) && !in_quote {
                    arguments.push(argument);
                    argument = String::new();
                    argument.push(' ');
                } else if span_end_at(&q, Ghost(quote_spans(r)), i) {
                    in_quote = !in_quote;
                    if !in_quote {
                        argument.push(c);
                        arguments.push(argument);
                        argument = String::new();
                    } else {
                        arguments.push(argument);
                        argument = String::new();
                        argument.push(c);
                    }
                } else {
                    argument.push(c);
                    if i == n - 1 {
                        arguments.push(argument.clone());
                    }
                }
                i = i + 1;
            }
            arguments
        },
    }
}


/// A chunk that names a directory: after trimming, it starts with `~` or
/// `/`, or it is `.`, or starts with `./` or `..`.
pub open spec fn is_dir_like(s: Seq<char>) -> bool {
    let t = trimmed(s);
    &&& t.len() > 0
    &&& (t[0] == '~' || t[0] == '/' || (t[0] == '.' && (t.len() == 1 || t[1] == '/' || t[1]
        == '.')))
}

/// Whether `input` looks like a directory path.
pub fn is_directory(input: &str) -> (b: bool)
    ensures
        b == is_dir_like(input@),
{
    let temp = trim(input);
    let t = chars_of(temp.as_str());
    if t.len() == 0 {
        false
    } else if t[0] == '~' || t[0] == '/' {
        true
    } else if t[0] == '.' {
        t.len() == 1 || t[1] == '/' || t[1] == '.'
    } else {
        false
    }
}

/// The value paired with `key` in the first entry of `dirs`, from `k` on,
/// whose key it is.
pub open spec fn lookup_from(dirs: Seq<(Seq<char>, Seq<char>)>, key: Seq<char>, k: int) -> Option<
    Seq<char>,
>
    decreases dirs.len() - k,
{
    if k < 0 || k >= dirs.len() {
        Option::None
    } else if dirs[k].0 == key {
        Some(dirs[k].1)
    } else {
        lookup_from(dirs, key, k + 1)
    }
}

/// What a chunk becomes: a chunk that looks like a directory is replaced by
/// the resolved path that `dirs` pairs with it, when there is one.
pub open spec fn resolve(c: Seq<char>, dirs: Seq<(Seq<char>, Seq<char>)>) -> Seq<char> {
    if is_dir_like(c) {
        match lookup_from(dirs, c, 0) {
            Some(d) => d,
            Option::None => c,
        }
    } else {
        c
    }
}

/// The command line after its directory chunks are resolved: the resolved
/// chunks put back together, or the line itself when it holds no space.
pub open spec fn rebuilt(s: Seq<char>, dirs: Seq<(Seq<char>, Seq<char>)>) -> Seq<char> {
    match index_of(s, ' ') {
        Some(p) => {
            let cs = chunks_at(s, p);
            join(Seq::new(cs.len(), |k: int| resolve(cs[k], dirs)), Seq::empty())
        },
        Option::None => s,
    }
}

/// What a backslash followed by `c` stands for, inside a double-quoted
/// span, inside a single-quoted span, or outside quotes.
pub open spec fn escaped(c: char, kind: Option<QuoteType>) -> Seq<char> {
    match kind {
        Some(QuoteType::Double) => if c == 'n' {
            seq!['\n']
        } else if c == 't' {
            seq!['\t']
        } else if c == 'r' {
            seq!['\r']
        } else if c == '\\' || c == '"' || c == '$' {
            seq![c]
        } else {
            seq!['\\', c]
        },
        Some(QuoteType::Single) => seq!['\\', c],
        Option::None => if c == 'n' {
            seq!['\n']
        } else if c == 't' {
            seq!['\t']
        } else if c == 'r' {
            seq!['\r']
        } else {
            seq![c]
        },
    }
}

/// The byte position of the `k`-th character of `t`.
pub open spec fn byte_pos(t: Seq<char>, k: int) -> int {
    utf8_len_seq(t.take(k)) as int
}

/// The state of the tokenizer: whether a backslash is pending, the token
/// being built, and the tokens finished so far.
pub type TokState = (bool, Seq<char>, Seq<Seq<char>>);

/// One step of the tokenizer at the `k`-th character of `t`, whose byte
/// position is compared with the quoted spans `q` of the command line `s`.
pub open spec fn tok_step(st: TokState, t: Seq<char>, s: Seq<char>, q: Seq<(int, int)>, k: int) -> TokState {
    let ch = t[k];
    let i = byte_pos(t, k);
    let around = span_around(q, i);
    let kind = match around {
        Some(j) => Some(span_kind(s, q[j].0)),
        Option::None => Option::None,
    };
    if st.0 {
        (false, st.1 + escaped(ch, kind), st.2)
    } else if ch == '\\' {
        (true, st.1, st.2)
    } else if around is Some {
        (false, st.1.push(ch), st.2)
    } else if is_quote(ch) {
        if is_span_end(q, i) {
            st
        } else {
            (false, st.1.push(ch), st.2)
        }
    } else if is_ws(ch) {
        if st.1.len() > 0 {
            (false, Seq::empty(), st.2.push(st.1))
        } else {
            st
        }
    } else {
        (false, st.1.push(ch), st.2)
    }
}

/// The tokenizer's state after the first `n` characters of `t`.
pub open spec fn tok_scan(t: Seq<char>, s: Seq<char>, n: int) -> TokState
    decreases n,
{
    if n <= 0 {
        (false, Seq::empty(), Seq::empty())
    } else {
        tok_step(tok_scan(t, s, n - 1), t, s, quote_spans(s), n - 1)
    }
}

/// The tokens of `t`, with the quoted spans of the command line `s`.
pub open spec fn tokenize(t: Seq<char>, s: Seq<char>) -> Seq<Seq<char>> {
    let st = tok_scan(t, s, t.len() as int);
    if st.1.len() > 0 {
        st.2.push(st.1)
    } else {
        st.2
    }
}

/// The arguments of the command line `s`, where `dirs` pairs directory
/// chunks with their resolved paths.
pub open spec fn parsed_args(s: Seq<char>, dirs: Seq<(Seq<char>, Seq<char>)>) -> Seq<Seq<char>> {
    tokenize(rebuilt(s, dirs), s)
}

proof fn lemma_far_position(q: Seq<(int, int)>, i: int, k: int)
    requires
        0 <= k,
        forall|j: int| 0 <= j < q.len() ==> (#[trigger] q[j]).0 < q[j].1 < usize::MAX,
        i >= usize::MAX,
    ensures
        span_around_from(q, i, k) is None,
        !is_span_end_from(q, i, k),
    decreases q.len() - k,
{
    if k < q.len() {
        lemma_far_position(q, i, k + 1);
    }
}

fn push_escaped(cur: &mut String, c: char, kind: Option<QuoteType>)
    ensures
        final(cur)@ == old(cur)@ + escaped(c, kind),
{
    match kind {
        Some(QuoteType::Double) => {
            if c == 'n' {
                cur.push('\n');
            } else if c == 't' {
                cur.push('\t');
            } else if c == 'r' {
                cur.push('\r');
            } else if c == '\\' || c == '"' || c == '$' {
                cur.push(c);
            } else {
                cur.push('\\');
                cur.push(c);
            }
        },
        Some(QuoteType::Single) => {
            cur.push('\\');
            cur.push(c);
        },
        None => {
            if c == 'n' {
                cur.push('\n');
            } else if c == 't' {
                cur.push('\t');
            } else if c == 'r' {
                cur.push('\r');
            } else {
                cur.push(c);
            }
        },
    }
    assert(cur@ =~= old(cur)@ + escaped(c, kind));
}

/// Cuts `t` into tokens, with `spans` the quoted spans of the command line
/// `input` and `kinds` their quote kinds.
fn tokenize_chars(t: &Vec<char>, input: &str, spans: &Vec<(usize, usize)>, kinds: &Vec<QuoteType>) -> (r: Vec<String>)
    requires
        spans_match(spans@, quote_spans(input@)),
        spans_ordered(input@, quote_spans(input@), input@.len() as int),
        input@.len() <= usize::MAX,
        kinds@.len() == spans@.len(),
        forall|j: int| 0 <= j < kinds@.len() ==> #[trigger] kinds@[j] == span_kind(input@, spans@[j].0 as int),
    ensures
        r.deep_view() == tokenize(t@, input@),
{
    let ghost q = quote_spans(input@);
    let ghost s = input@;
    let mut args: Vec<String> = Vec::new();
    let mut current = String::new();
    let mut escape = false;
    let mut pos: usize = 0;
    let mut k: usize = 0;
    assert(t@.take(0) =~= Seq::<char>::empty());
    while k < t.len()
        invariant
            k <= t.len(),
            spans_match(spans@, q),
            spans_ordered(s, q, s.len() as int),
            s.len() <= usize::MAX,
            q == quote_spans(s),
            s == input@,
            kinds@.len() == spans@.len(),
            forall|j: int| 0 <= j < kinds@.len() ==> #[trigger] kinds@[j] == span_kind(s, spans@[j].0 as int),
            pos as int == if byte_pos(t@, k as int) >= usize::MAX { usize::MAX as int } else { byte_pos(t@, k as int) },
            (escape, current@, args.deep_view()) == tok_scan(t@, s, k as int),
        decreases t.len() - k,
    {
        let ch = t[k];
        let ghost i = byte_pos(t@, k as int);
        proof {
            assert forall|j: int| 0 <= j < q.len() implies (#[trigger] q[j]).0 < q[j].1 < usize::MAX by {
            }
            if i >= usize::MAX {
                lemma_far_position(q, i, 0);
                lemma_far_position(q, usize::MAX as int, 0);
            }
        }
        let around = span_around_at(spans, Ghost(q), pos);
        let kind = match around {
            Some(j) => Some(kinds[j]),
            None => None,
        };
        if escape {
            push_escaped(&mut current, ch, kind);
            escape = false;
        } else if ch == '\\' {
            escape = true;
        } else if around.is_some() {
            current.push(ch);
        } else if ch == '\'' || ch == '"' {
            if !span_end_at(spans, Ghost(q), pos) {
                current.push(ch);
            }
        } else if is_whitespace(ch) {
            if !current.as_str().is_empty() {
                let done = current;
                args.push(done);
                current = String::new();
            }
        } else {
            current.push(ch);
        }
        let l = char_len_utf8(ch);
        pos = pos.saturating_add(l);
        assert(t@.take(k + 1).drop_last() =~= t@.take(k as int));
        k = k + 1;
    }
    if !current.as_str().is_empty() {
        args.push(current);
    }
    assert(t@.take(t.len() as int) =~= t@);
    args
}


proof fn lemma_tok_scan_nonempty(t: Seq<char>, s: Seq<char>, n: int)
    requires
        0 <= n <= t.len(),
    ensures
        forall|k: int| 0 <= k < tok_scan(t, s, n).2.len() ==> (#[trigger] tok_scan(t, s, n).2[k]).len() > 0,
    decreases n,
{
    if n > 0 {
        lemma_tok_scan_nonempty(t, s, n - 1);
        let prev = tok_scan(t, s, n - 1);
        let nxt = tok_scan(t, s, n);
        assert(nxt == tok_step(prev, t, s, quote_spans(s), n - 1));
        assert(nxt.2 == prev.2 || (prev.1.len() > 0 && nxt.2 == prev.2.push(prev.1)));
        assert forall|k: int| 0 <= k < nxt.2.len() implies (#[trigger] nxt.2[k]).len() > 0 by {
            if nxt.2 != prev.2 {
                if k < prev.2.len() {
                    assert(nxt.2[k] == prev.2[k]);
                }
            }
        }
    }
}

/// Every argument that the shell's splitter yields holds at least one
/// character: blank runs never make an argument.
pub proof fn lemma_parsed_args_nonempty(s: Seq<char>, dirs: Seq<(Seq<char>, Seq<char>)>)
    ensures
        forall|k: int| 0 <= k < parsed_args(s, dirs).len() ==> (#[trigger] parsed_args(s, dirs)[k]).len() > 0,
{
    let t = rebuilt(s, dirs);
    lemma_tok_scan_nonempty(t, s, t.len() as int);
}

/// A character that makes a word look like a directory name when it
/// starts the word.
pub open spec fn is_path_start(c: char) -> bool {
    c == '~' || c == '/' || c == '.'
}

/// A word of `s` starts at position `k`: a character that is not white
/// space, first in `s` or right after white space.
pub open spec fn word_starts_at(s: Seq<char>, k: int) -> bool {
    &&& 0 <= k < s.len()
    &&& !is_ws(s[k])
    &&& (k == 0 || is_ws(s[k - 1]))
}

/// A plain command line: no quote and no backslash in it, and no word of it
/// starts with `~`, `/` or `.`.
pub open spec fn plain_line(s: Seq<char>) -> bool {
    &&& forall|k: int| 0 <= k < s.len() ==> !is_quote(#[trigger] s[k]) && s[k] != '\\'
    &&& forall|k: int| #[trigger] word_starts_at(s, k) ==> !is_path_start(s[k])
}

/// The state of a plain word splitter: the word being built and the words
/// finished so far.
pub type WordState = (Seq<char>, Seq<Seq<char>>);

/// The word splitter's state after the first `n` characters of `s`.
pub open spec fn word_scan(s: Seq<char>, n: int) -> WordState
    decreases n,
{
    if n <= 0 {
        (Seq::empty(), Seq::empty())
    } else {
        let st = word_scan(s, n - 1);
        if is_ws(s[n - 1]) {
            if st.0.len() > 0 {
                (Seq::empty(), st.1.push(st.0))
            } else {
                st
            }
        } else {
            (st.0.push(s[n - 1]), st.1)
        }
    }
}

/// The white-space separated words of `s`, in order (`str::split_whitespace`).
pub open spec fn whitespace_words(s: Seq<char>) -> Seq<Seq<char>> {
    let st = word_scan(s, s.len() as int);
    if st.0.len() > 0 {
        st.1.push(st.0)
    } else {
        st.1
    }
}

/// `r` with each white-space character replaced by a space.
pub open spec fn spaced(r: Seq<char>) -> Seq<char> {
    Seq::new(r.len(), |k: int| if is_ws(r[k]) { ' ' } else { r[k] })
}

/// No quote character stands in `s`.
pub open spec fn quote_free(s: Seq<char>) -> bool {
    forall|k: int| 0 <= k < s.len() ==> !is_quote(#[trigger] s[k])
}

/// No word of `s` starts with `~`, `/` or `.`.
pub open spec fn safe_word_starts(s: Seq<char>) -> bool {
    forall|k: int| #[trigger] word_starts_at(s, k) ==> !is_path_start(s[k])
}

proof fn lemma_quote_free_scan(s: Seq<char>, n: int)
    requires
        0 <= n <= s.len(),
        quote_free(s),
    ensures
        quote_scan(s, n).1 is None,
        quote_scan(s, n).2 == Seq::<(int, int)>::empty(),
    decreases n,
{
    if n > 0 {
        lemma_quote_free_scan(s, n - 1);
        assert(!is_quote(s[n - 1]));
    }
}

proof fn lemma_no_quote_scan(s: Seq<char>, n: int)
    requires
        0 <= n <= s.len(),
        forall|k: int| 0 <= k < s.len() ==> !is_quote(#[trigger] s[k]) && s[k] != '\\',
    ensures
        quote_scan(s, n) == (false, Option::<int>::None, Seq::<(int, int)>::empty()),
    decreases n,
{
    if n > 0 {
        lemma_no_quote_scan(s, n - 1);
        assert(!is_quote(s[n - 1]));
    }
}

proof fn lemma_tok_words(t: Seq<char>, s: Seq<char>, n: int)
    requires
        0 <= n <= t.len(),
        quote_spans(s).len() == 0,
        forall|k: int| 0 <= k < t.len() ==> !is_quote(#[trigger] t[k]) && t[k] != '\\',
    ensures
        tok_scan(t, s, n) == (false, word_scan(t, n).0, word_scan(t, n).1),
    decreases n,
{
    if n > 0 {
        lemma_tok_words(t, s, n - 1);
        assert(!is_quote(t[n - 1]));
        assert(span_around(quote_spans(s), byte_pos(t, n - 1)) is None);
    }
}

proof fn lemma_word_scan_pattern(u: Seq<char>, v: Seq<char>, n: int)
    requires
        0 <= n <= u.len(),
        u.len() == v.len(),
        forall|k: int|
            0 <= k < u.len() ==> is_ws(#[trigger] u[k]) == is_ws(v[k]) && (!is_ws(u[k]) ==> u[k]
                == v[k]),
    ensures
        word_scan(u, n) == word_scan(v, n),
    decreases n,
{
    if n > 0 {
        lemma_word_scan_pattern(u, v, n - 1);
        assert(is_ws(u[n - 1]) == is_ws(v[n - 1]));
    }
}

proof fn lemma_word_scan_prefix(a: Seq<char>, b: Seq<char>, n: int)
    requires
        0 <= n <= a.len(),
    ensures
        word_scan(a + b, n) == word_scan(a, n),
    decreases n,
{
    if n > 0 {
        lemma_word_scan_prefix(a, b, n - 1);
        assert((a + b)[n - 1] == a[n - 1]);
    }
}

proof fn lemma_words_trailing_ws(u: Seq<char>, c: char)
    requires
        is_ws(c),
    ensures
        whitespace_words(u.push(c)) == whitespace_words(u),
{
    assert(u.push(c) =~= u + seq![c]);
    lemma_word_scan_prefix(u, seq![c], u.len() as int);
    assert(u.push(c)[u.len() as int] == c);
}

proof fn lemma_join_push(parts: Seq<Seq<char>>, x: Seq<char>)
    requires
        parts.len() >= 1,
    ensures
        join(parts.push(x), Seq::empty()) == join(parts, Seq::empty()) + x,
{
    assert(parts.push(x).drop_last() =~= parts);
    assert(join(parts, Seq::empty()) + Seq::<char>::empty() =~= join(parts, Seq::empty()));
}

/// A chunk `pre + r[b..n]`, where `pre` is empty when `b` is 0 and a space
/// otherwise, `r[b..n]` holds no white space and `b` starts a word of `r`.
pub open spec fn chunk_form(r: Seq<char>, c: Seq<char>, b: int, n: int) -> bool {
    &&& 0 <= b <= n <= r.len()
    &&& forall|k: int| b <= k < n ==> !is_ws(#[trigger] r[k])
    &&& b == 0 ==> c == r.subrange(0, n)
    &&& b > 0 ==> is_ws(r[b - 1]) && c == seq![' '] + r.subrange(b, n)
}

proof fn lemma_chunk_not_dir(s: Seq<char>, p: int, c: Seq<char>, b: int, n: int)
    requires
        quote_free(s),
        safe_word_starts(s),
        0 <= p < s.len(),
        s[p] == ' ',
        chunk_form(s.skip(p + 1), c, b, n),
    ensures
        !is_dir_like(c),
{
    let r = s.skip(p + 1);
    if trimmed(c).len() > 0 {
        lemma_trimmed_first(c);
        let j = choose|j: int|
            0 <= j < c.len() && trimmed(c)[0] == c[j] && !is_ws(c[j]) && (forall|k: int|
                0 <= k < j ==> is_ws(#[trigger] c[k]));
        let pre: int = if b == 0 { 0 } else { 1 };
        assert(c.len() == pre + (n - b));
        if pre == 1 {
            assert(c[0] == ' ');
        }
        assert(j >= pre);
        assert(c[j] == r[b + (j - pre)]);
        if j > pre {
            assert(is_ws(c[pre]));
            assert(c[pre] == r[b]);
            assert(!is_ws(r[b]));
        }
        assert(c[j] == r[b]);
        assert(s[p + 1 + b] == r[b]);
        if b > 0 {
            assert(s[p + b] == r[b - 1]);
        }
        assert(word_starts_at(s, p + 1 + b));
    }
}

proof fn lemma_head_not_dir(s: Seq<char>, p: int)
    requires
        quote_free(s),
        safe_word_starts(s),
        0 <= p < s.len(),
        s[p] == ' ',
    ensures
        !is_dir_like(s.take(p).push(' ')),
{
    let c = s.take(p).push(' ');
    if trimmed(c).len() > 0 {
        lemma_trimmed_first(c);
        let j = choose|j: int|
            0 <= j < c.len() && trimmed(c)[0] == c[j] && !is_ws(c[j]) && (forall|k: int|
                0 <= k < j ==> is_ws(#[trigger] c[k]));
        assert(j < p);
        assert(c[j] == s[j]);
        if j > 0 {
            assert(c[j - 1] == s[j - 1]);
        }
        assert(word_starts_at(s, j));
    }
}

proof fn lemma_chunk_scan_plain(s: Seq<char>, p: int, n: int) -> (b: int)
    requires
        quote_free(s),
        safe_word_starts(s),
        0 <= p < s.len(),
        s[p] == ' ',
        0 <= n <= s.skip(p + 1).len(),
    ensures
        ({
            let r = s.skip(p + 1);
            let st = chunk_scan(s.take(p), r, n);
            let h = s.take(p).push(' ');
            &&& !st.0
            &&& st.2.len() >= 1
            &&& chunk_form(r, st.1, b, n)
            &&& forall|m: int| 0 <= m < st.2.len() ==> !is_dir_like(#[trigger] st.2[m])
            &&& (n == r.len() && n > 0 && !is_ws(r[n - 1])) ==> join(st.2, Seq::empty()) == h
                + spaced(r).take(n)
            &&& !(n == r.len() && n > 0 && !is_ws(r[n - 1])) ==> join(st.2, Seq::empty()) + st.1
                == h + spaced(r).take(n)
        }),
    decreases n,
{
    let r = s.skip(p + 1);
    let h = s.take(p).push(' ');
    if n == 0 {
        lemma_head_not_dir(s, p);
        let st = chunk_scan(s.take(p), r, 0);
        assert(st.1 =~= r.subrange(0, 0));
        assert(spaced(r).take(0) =~= Seq::<char>::empty());
        assert(h + spaced(r).take(0) =~= h);
        assert(join(st.2, Seq::empty()) + st.1 =~= h);
        0
    } else {
        let b0 = lemma_chunk_scan_plain(s, p, n - 1);
        let i = n - 1;
        let st = chunk_scan(s.take(p), r, i);
        let c = r[i];
        assert forall|k: int| 0 <= k < r.len() implies !is_quote(#[trigger] r[k]) by {
            assert(r[k] == s[p + 1 + k]);
        }
        lemma_quote_free_scan(r, r.len() as int);
        assert(!is_span_end(quote_spans(r), i));
        let nst = chunk_scan(s.take(p), r, n);
        assert(spaced(r).take(n) =~= spaced(r).take(i).push(spaced(r)[i]));
        lemma_chunk_not_dir(s, p, st.1, b0, i);
        if is_ws(c) {
            assert(nst == (false, seq![' '], st.2.push(st.1)));
            lemma_join_push(st.2, st.1);
            assert(nst.1 =~= seq![' '] + r.subrange(n, n));
            assert forall|m: int| 0 <= m < nst.2.len() implies !is_dir_like(#[trigger] nst.2[m]) by {
                if m < st.2.len() {
                    assert(nst.2[m] == st.2[m]);
                }
            }
            assert(join(nst.2, Seq::empty()) + nst.1 =~= h + spaced(r).take(n));
            n
        } else {
            let a = st.1.push(c);
            assert(spaced(r)[i] == c);
            assert(join(st.2, Seq::empty()) + st.1 == h + spaced(r).take(i));
            assert(join(st.2, Seq::empty()) + a =~= (join(st.2, Seq::empty()) + st.1).push(c));
            if b0 == 0 {
                assert(a =~= r.subrange(0, n));
            } else {
                assert(a =~= seq![' '] + r.subrange(b0, n));
            }
            assert(chunk_form(r, a, b0, n));
            if i == r.len() - 1 {
                assert(nst == (false, a, st.2.push(a)));
                lemma_join_push(st.2, a);
                lemma_chunk_not_dir(s, p, a, b0, n);
                assert forall|m: int| 0 <= m < nst.2.len() implies !is_dir_like(#[trigger] nst.2[m]) by {
                    if m < st.2.len() {
                        assert(nst.2[m] == st.2[m]);
                    }
                }
                assert(join(nst.2, Seq::empty()) =~= h + spaced(r).take(n));
            } else {
                assert(nst == (false, a, st.2));
                assert(join(nst.2, Seq::empty()) + nst.1 =~= h + spaced(r).take(n));
            }
            b0
        }
    }
}

/// On a plain command line (ASCII, no quote, no backslash, no word starting
/// with `~`, `/` or `.`) the shell's splitter gives exactly the white-space
/// separated words of the line, whatever directories `dirs` resolves, and
/// `parse_args` accepts the line.
pub proof fn lemma_plain_line_words(s: Seq<char>, dirs: Seq<(Seq<char>, Seq<char>)>)
    requires
        is_ascii_chars(s),
        plain_line(s),
    ensures
        parse_args_pre(s),
        parsed_args(s, dirs) == whitespace_words(s),
{
    lemma_no_quote_scan(s, s.len() as int);
    lemma_index_of_from(s, ' ', 0);
    match index_of(s, ' ') {
        Option::None => {
            lemma_tok_words(s, s, s.len() as int);
        },
        Some(p) => {
            let r = s.skip(p + 1);
            assert forall|k: int| 0 <= k < r.len() implies '\0' <= #[trigger] r[k] <= '\u{7f}' by {
                assert(r[k] == s[p + 1 + k]);
            }
            let h = s.take(p).push(' ');
            let cs = chunks_at(s, p);
            let _b = lemma_chunk_scan_plain(s, p, r.len() as int);
            let st = chunk_scan(s.take(p), r, r.len() as int);
            assert(Seq::new(cs.len(), |k: int| resolve(cs[k], dirs)) =~= cs);
            let j = join(cs, Seq::empty());
            assert(rebuilt(s, dirs) == j);
            let f = h + spaced(r);
            assert(spaced(r).take(r.len() as int) =~= spaced(r));
            assert(s =~= h + r);
            assert forall|k: int|
                0 <= k < f.len() implies is_ws(#[trigger] f[k]) == is_ws(s[k]) && (!is_ws(f[k])
                ==> f[k] == s[k]) by {
                if k >= h.len() {
                    assert(f[k] == spaced(r)[k - h.len()]);
                    assert(s[k] == r[k - h.len()]);
                }
            }
            lemma_word_scan_pattern(f, s, f.len() as int);
            assert forall|k: int| 0 <= k < f.len() implies !is_quote(#[trigger] f[k]) && f[k]
                != '\\' by {
                assert(!is_quote(s[k]) && s[k] != '\\');
            }
            if r.len() > 0 && !is_ws(r[r.len() - 1]) {
                assert(j == f);
            } else {
                assert(j + st.1 == f);
                if r.len() == 0 {
                    assert(st.1.len() == 0);
                    assert(j =~= f);
                } else {
                    assert(st.1 =~= seq![' ']);
                    assert(f =~= j.push(' '));
                    lemma_words_trailing_ws(j, ' ');
                }
            }
            assert forall|k: int| 0 <= k < j.len() implies !is_quote(#[trigger] j[k]) && j[k]
                != '\\' by {
                assert(j[k] == f[k]);
            }
            lemma_tok_words(j, s, j.len() as int);
        },
    }
}

/// What a backslash outside quotes makes of the character after it: `n`,
/// `t` and `r` stand for a line feed, a tab and a carriage return, and any
/// other character stands for itself alone (the backslash is dropped).
pub open spec fn unquoted_escape(c: char) -> char {
    if c == 'n' {
        '\n'
    } else if c == 't' {
        '\t'
    } else if c == 'r' {
        '\r'
    } else {
        c
    }
}

/// The state of a splitter of unquoted text with backslash escapes: whether
/// a backslash is pending, the word being built and the words finished.
pub type EscWordState = (bool, Seq<char>, Seq<Seq<char>>);

/// That splitter's state after the first `n` characters of `s`: an escaped
/// character always joins the word, white space that is not escaped ends
/// it, a backslash that is not escaped escapes the next character.
pub open spec fn esc_word_scan(s: Seq<char>, n: int) -> EscWordState
    decreases n,
{
    if n <= 0 {
        (false, Seq::empty(), Seq::empty())
    } else {
        let st = esc_word_scan(s, n - 1);
        let c = s[n - 1];
        if st.0 {
            (false, st.1.push(unquoted_escape(c)), st.2)
        } else if c == '\\' {
            (true, st.1, st.2)
        } else if is_ws(c) {
            if st.1.len() > 0 {
                (false, Seq::empty(), st.2.push(st.1))
            } else {
                st
            }
        } else {
            (false, st.1.push(c), st.2)
        }
    }
}

/// The words of the unquoted text `s`, with backslash escapes applied.
pub open spec fn escaped_words(s: Seq<char>) -> Seq<Seq<char>> {
    let st = esc_word_scan(s, s.len() as int);
    if st.1.len() > 0 {
        st.2.push(st.1)
    } else {
        st.2
    }
}

/// An unquoted command line: no quote in it, no word of it starts with
/// `~`, `/` or `.`, every escaped white-space character is a space, and it
/// does not end in white space (as after trimming).
pub open spec fn unquoted_line(s: Seq<char>) -> bool {
    &&& quote_free(s)
    &&& safe_word_starts(s)
    &&& forall|k: int| 0 <= k < s.len() && is_escaped(s, k) && is_ws(#[trigger] s[k]) ==> s[k] == ' '
    &&& s.len() > 0 ==> !is_ws(s.last())
}

proof fn lemma_esc_scan_escape(s: Seq<char>, n: int)
    requires
        0 <= n <= s.len(),
    ensures
        esc_word_scan(s, n).0 == is_escaped(s, n),
    decreases n,
{
    if n > 0 {
        lemma_esc_scan_escape(s, n - 1);
    }
}

proof fn lemma_tok_esc(t: Seq<char>, s: Seq<char>, n: int)
    requires
        0 <= n <= t.len(),
        quote_spans(s).len() == 0,
        quote_free(t),
    ensures
        tok_scan(t, s, n) == esc_word_scan(t, n),
    decreases n,
{
    if n > 0 {
        lemma_tok_esc(t, s, n - 1);
        let st = esc_word_scan(t, n - 1);
        assert(!is_quote(t[n - 1]));
        assert(span_around(quote_spans(s), byte_pos(t, n - 1)) is None);
        assert(st.1 + escaped(t[n - 1], Option::None) =~= st.1.push(unquoted_escape(t[n - 1])));
    }
}

proof fn lemma_esc_scan_pattern(u: Seq<char>, v: Seq<char>, n: int)
    requires
        0 <= n <= u.len(),
        u.len() == v.len(),
        forall|k: int|
            0 <= k < u.len() ==> is_ws(#[trigger] u[k]) == is_ws(v[k]) && (!is_ws(u[k]) ==> u[k]
                == v[k]),
        forall|k: int| 0 <= k < u.len() && is_escaped(u, k) ==> #[trigger] u[k] == v[k],
    ensures
        esc_word_scan(u, n) == esc_word_scan(v, n),
    decreases n,
{
    if n > 0 {
        lemma_esc_scan_pattern(u, v, n - 1);
        lemma_esc_scan_escape(u, n - 1);
        assert(is_ws(u[n - 1]) == is_ws(v[n - 1]));
        if is_escaped(u, n - 1) {
            assert(u[n - 1] == v[n - 1]);
        }
    }
}

/// Outside quotes, a backslash makes the next character literal: on an
/// unquoted command line (see `unquoted_line`) the shell's splitter gives
/// exactly the words of the line with its escapes applied, whatever
/// directories `dirs` resolves; an ASCII such line is accepted by
/// `parse_args`.
pub proof fn lemma_unquoted_escapes(s: Seq<char>, dirs: Seq<(Seq<char>, Seq<char>)>)
    requires
        unquoted_line(s),
    ensures
        parsed_args(s, dirs) == escaped_words(s),
        is_ascii_chars(s) ==> parse_args_pre(s),
{
    lemma_quote_free_scan(s, s.len() as int);
    lemma_index_of_from(s, ' ', 0);
    match index_of(s, ' ') {
        Option::None => {
            lemma_tok_esc(s, s, s.len() as int);
        },
        Some(p) => {
            let r = s.skip(p + 1);
            if is_ascii_chars(s) {
                assert forall|k: int| 0 <= k < r.len() implies '\0' <= #[trigger] r[k] <= '\u{7f}' by {
                    assert(r[k] == s[p + 1 + k]);
                }
            }
            let h = s.take(p).push(' ');
            let cs = chunks_at(s, p);
            let _b = lemma_chunk_scan_plain(s, p, r.len() as int);
            let st = chunk_scan(s.take(p), r, r.len() as int);
            assert(Seq::new(cs.len(), |k: int| resolve(cs[k], dirs)) =~= cs);
            let j = join(cs, Seq::empty());
            assert(rebuilt(s, dirs) == j);
            let f = h + spaced(r);
            assert(spaced(r).take(r.len() as int) =~= spaced(r));
            assert(s =~= h + r);
            assert forall|k: int|
                0 <= k < s.len() implies is_ws(#[trigger] s[k]) == is_ws(f[k]) && (!is_ws(s[k])
                ==> s[k] == f[k]) by {
                if k >= h.len() {
                    assert(f[k] == spaced(r)[k - h.len()]);
                    assert(s[k] == r[k - h.len()]);
                }
            }
            assert forall|k: int| 0 <= k < s.len() && is_escaped(s, k) implies #[trigger] s[k]
                == f[k] by {
                if k >= h.len() {
                    assert(f[k] == spaced(r)[k - h.len()]);
                    assert(s[k] == r[k - h.len()]);
                }
            }
            lemma_esc_scan_pattern(s, f, s.len() as int);
            if r.len() > 0 {
                assert(r[r.len() - 1] == s.last());
                assert(j == f);
            } else {
                assert(j + st.1 == f);
                assert(st.1.len() == 0);
                assert(j =~= f);
            }
            assert forall|k: int| 0 <= k < j.len() implies !is_quote(#[trigger] j[k]) by {
                if !is_ws(s[k]) {
                    assert(j[k] == s[k]);
                }
            }
            lemma_tok_esc(j, s, j.len() as int);
        },
    }
}

/// No unquoted escape leaves its backslash in an argument: on an unquoted
/// command line where no backslash is itself escaped, no argument holds a
/// backslash.
pub proof fn lemma_unquoted_escapes_drop_backslash(s: Seq<char>, dirs: Seq<(Seq<char>, Seq<char>)>)
    requires
        unquoted_line(s),
        forall|k: int| 0 <= k < s.len() && #[trigger] s[k] == '\\' ==> !is_escaped(s, k),
    ensures
        forall|i: int| 0 <= i < parsed_args(s, dirs).len() ==> !(#[trigger] parsed_args(s, dirs)[i]).contains('\\'),
{
    lemma_unquoted_escapes(s, dirs);
    lemma_esc_scan_no_backslash(s, s.len() as int);
    let fin = esc_word_scan(s, s.len() as int);
    assert forall|i: int| 0 <= i < escaped_words(s).len() implies !(#[trigger] escaped_words(s)[i]).contains('\\') by {
        if i < fin.2.len() {
            assert(escaped_words(s)[i] == fin.2[i]);
        }
    }
}

proof fn lemma_esc_scan_no_backslash(s: Seq<char>, n: int)
    requires
        0 <= n <= s.len(),
        forall|k: int| 0 <= k < s.len() && #[trigger] s[k] == '\\' ==> !is_escaped(s, k),
    ensures
        !esc_word_scan(s, n).1.contains('\\'),
        forall|i: int| 0 <= i < esc_word_scan(s, n).2.len() ==> !(#[trigger] esc_word_scan(s, n).2[i]).contains('\\'),
    decreases n,
{
    if n > 0 {
        lemma_esc_scan_no_backslash(s, n - 1);
        lemma_esc_scan_escape(s, n - 1);
        let st = esc_word_scan(s, n - 1);
        let nst = esc_word_scan(s, n);
        let c = s[n - 1];
        if st.0 {
            assert(c != '\\');
            assert(unquoted_escape(c) != '\\');
        }
        assert(!nst.1.contains('\\')) by {
            if nst.1.contains('\\') {
                let x = choose|x: int| 0 <= x < nst.1.len() && nst.1[x] == '\\';
                if x < st.1.len() && nst.1.len() == st.1.len() + 1 {
                    assert(nst.1[x] == st.1[x]);
                }
            }
        }
        assert forall|i: int| 0 <= i < nst.2.len() implies !(#[trigger] nst.2[i]).contains('\\') by {
            if i < st.2.len() {
                assert(nst.2[i] == st.2[i]);
            }
        }
    }
}

/// A word with no white space, quote or backslash in it, that does not
/// start with `~`, `/` or `.`.
pub open spec fn plain_word(x: Seq<char>) -> bool {
    &&& x.len() > 0
    &&& forall|k: int|
        0 <= k < x.len() ==> !is_ws(#[trigger] x[k]) && !is_quote(x[k]) && x[k] != '\\'
    &&& !is_path_start(x[0])
}

proof fn lemma_esc_scan_word(s: Seq<char>, m: int, k: int)
    requires
        0 <= m,
        0 <= k,
        m + k <= s.len(),
        !esc_word_scan(s, m).0,
        forall|i: int| m <= i < m + k ==> !is_ws(#[trigger] s[i]) && s[i] != '\\',
    ensures
        esc_word_scan(s, m + k) == (false, esc_word_scan(s, m).1 + s.subrange(m, m + k), esc_word_scan(
            s,
            m,
        ).2),
    decreases k,
{
    if k == 0 {
        assert(esc_word_scan(s, m).1 + s.subrange(m, m) =~= esc_word_scan(s, m).1);
    } else {
        lemma_esc_scan_word(s, m, k - 1);
        assert(!is_ws(s[m + k - 1]) && s[m + k - 1] != '\\');
        assert((esc_word_scan(s, m).1 + s.subrange(m, m + k - 1)).push(s[m + k - 1])
            =~= esc_word_scan(s, m).1 + s.subrange(m, m + k));
    }
}

/// The line `w a\ b`.
pub open spec fn escaped_space_line(w: Seq<char>, a: Seq<char>, b: Seq<char>) -> Seq<char> {
    w + seq![' '] + a + seq!['\\', ' '] + b
}

proof fn lemma_escaped_space_line_chars(w: Seq<char>, a: Seq<char>, b: Seq<char>)
    ensures
        ({
            let s = escaped_space_line(w, a, b);
            let p1 = w.len() as int;
            let p2 = p1 + 1 + a.len();
            let p3 = p2 + 2;
            &&& s.len() == p3 + b.len()
            &&& forall|i: int| 0 <= i < p1 ==> #[trigger] s[i] == w[i]
            &&& s[p1] == ' '
            &&& forall|i: int| p1 + 1 <= i < p2 ==> #[trigger] s[i] == a[i - p1 - 1]
            &&& s[p2] == '\\'
            &&& s[p2 + 1] == ' '
            &&& forall|i: int| p3 <= i < s.len() ==> #[trigger] s[i] == b[i - p3]
        }),
{
}

proof fn lemma_escaped_space_line_unquoted(w: Seq<char>, a: Seq<char>, b: Seq<char>)
    requires
        plain_word(w),
        plain_word(a),
        plain_word(b),
    ensures
        unquoted_line(escaped_space_line(w, a, b)),
{
    let s = escaped_space_line(w, a, b);
    let p1 = w.len() as int;
    let p2 = p1 + 1 + a.len();
    let p3 = p2 + 2;
    lemma_escaped_space_line_chars(w, a, b);
    assert forall|k: int| 0 <= k < s.len() implies !is_quote(#[trigger] s[k]) && (is_ws(s[k])
        ==> s[k] == ' ') by {
        if k < p1 {
            assert(s[k] == w[k]);
        } else if p1 < k < p2 {
            assert(s[k] == a[k - p1 - 1]);
        } else if k >= p3 {
            assert(s[k] == b[k - p3]);
        }
    }
    assert forall|k: int| #[trigger] word_starts_at(s, k) implies !is_path_start(s[k]) by {
        if k == 0 {
            assert(s[0] == w[0]);
        } else if k < p1 {
            assert(s[k - 1] == w[k - 1]);
        } else if k == p1 + 1 {
            assert(s[k] == a[0]);
        } else if p1 + 1 < k < p2 {
            assert(s[k - 1] == a[k - 2 - p1]);
        } else if k == p3 {
            assert(s[k] == b[0]);
        } else if k > p3 {
            assert(s[k - 1] == b[k - 1 - p3]);
        }
    }
    assert(s.last() == b[b.len() - 1]);
}

proof fn lemma_escaped_space_line_words(w: Seq<char>, a: Seq<char>, b: Seq<char>)
    requires
        plain_word(w),
        plain_word(a),
        plain_word(b),
    ensures
        escaped_words(escaped_space_line(w, a, b)) == seq![w, a + seq![' '] + b],
{
    let s = escaped_space_line(w, a, b);
    let p1 = w.len() as int;
    let p2 = p1 + 1 + a.len();
    let p3 = p2 + 2;
    lemma_escaped_space_line_chars(w, a, b);
    assert forall|i: int| 0 <= i < 0 + p1 implies !is_ws(#[trigger] s[i]) && s[i] != '\\' by {
        assert(s[i] == w[i]);
    }
    lemma_esc_scan_word(s, 0, p1);
    assert(s.subrange(0, p1) =~= w);
    assert(esc_word_scan(s, 0).1 + w =~= w);
    assert(esc_word_scan(s, p1 + 1) == (false, Seq::<char>::empty(), seq![w]));
    assert forall|i: int| p1 + 1 <= i < p1 + 1 + a.len() implies !is_ws(#[trigger] s[i]) && s[i]
        != '\\' by {
        assert(s[i] == a[i - p1 - 1]);
    }
    lemma_esc_scan_word(s, p1 + 1, a.len() as int);
    assert(s.subrange(p1 + 1, p2) =~= a);
    assert(Seq::<char>::empty() + a =~= a);
    assert(esc_word_scan(s, p2) == (false, a, seq![w]));
    assert(esc_word_scan(s, p2 + 1) == (true, a, seq![w]));
    assert(unquoted_escape(' ') == ' ');
    assert(esc_word_scan(s, p3) == (false, a.push(' '), seq![w]));
    assert forall|i: int| p3 <= i < p3 + b.len() implies !is_ws(#[trigger] s[i]) && s[i] != '\\' by {
        assert(s[i] == b[i - p3]);
    }
    lemma_esc_scan_word(s, p3, b.len() as int);
    assert(s.subrange(p3, p3 + b.len()) =~= b);
    assert(a.push(' ') + b =~= a + seq![' '] + b);
    assert(escaped_words(s) =~= seq![w, a + seq![' '] + b]);
}

/// An escaped space joins two words: for a command word `w` and words `a`
/// and `b` (see `plain_word`), the line `w a\ b` gives the two arguments
/// `w` and `a b`, whatever directories `dirs` resolves.
pub proof fn lemma_escaped_space_joins(w: Seq<char>, a: Seq<char>, b: Seq<char>, dirs: Seq<(Seq<char>, Seq<char>)>)
    requires
        plain_word(w),
        plain_word(a),
        plain_word(b),
    ensures
        parsed_args(w + seq![' '] + a + seq!['\\', ' '] + b, dirs) == seq![w, a + seq![' '] + b],
{
    lemma_escaped_space_line_unquoted(w, a, b);
    lemma_unquoted_escapes(escaped_space_line(w, a, b), dirs);
    lemma_escaped_space_line_words(w, a, b);
}

/// What the chunk `c` becomes once directory names are resolved by `dirs`.
fn resolve_chunk(c: &String, dirs: &Vec<(String, String)>) -> (r: String)
    ensures
        r@ == resolve(c@, dirs.deep_view()),
{
    if !is_directory(c.as_str()) {
        return c.clone();
    }
    let ghost d = dirs.deep_view();
    let mut k: usize = 0;
    while k < dirs.len()
        invariant
            k <= dirs.len(),
            d == dirs.deep_view(),
            is_dir_like(c@),
            lookup_from(d, c@, 0) == lookup_from(d, c@, k as int),
        decreases dirs.len() - k,
    {
        if str_eq(dirs[k].0.as_str(), c.as_str()) {
            assert(d[k as int].0 == dirs[k as int].0@);
            assert(d[k as int].1 == dirs[k as int].1@);
            return dirs[k].1.clone();
        }
        assert(d[k as int].0 == dirs[k as int].0@);
        k = k + 1;
    }
    c.clone()
}

/// Splits a command line into its arguments the way the shell does: words
/// are separated by white space outside quotes; quotes delimit spans whose
/// white space is kept; a backslash escapes the next character (`\n`, `\t`
/// and `\r` stand for control characters outside quotes and inside double
/// quotes, where `\\`, `\"` and `\$` stand for themselves as well; inside
/// single quotes the backslash is kept). Before that, every chunk that looks
/// like a directory and that `dirs` pairs with a resolved path is replaced
/// by that path.
pub fn parse_args(input: &str, dirs: &Vec<(String, String)>) -> (r: Vec<String>)
    requires
        parse_args_pre(input@),
    ensures
        r.deep_view() == parsed_args(input@, dirs.deep_view()),
{
    let v = chars_of(input);
    let spans = scan_quotes(&v);
    let kinds = span_kinds(input, &spans);
    let t: Vec<char> = match find_char(&v, ' ') {
        None => v.clone(),
        Some(p) => {
            let cs = arg_chunks(input);
            let ghost dcs = cs.deep_view();
            let ghost rs = Seq::new(dcs.len(), |k: int| resolve(dcs[k], dirs.deep_view()));
            let mut joined = String::new();
            let mut k: usize = 0;
            assert(rs.take(0) =~= Seq::<Seq<char>>::empty());
            while k < cs.len()
                invariant
                    k <= cs.len(),
                    dcs == cs.deep_view(),
                    rs == Seq::new(dcs.len(), |k: int| resolve(dcs[k], dirs.deep_view())),
                    joined@ == join(rs.take(k as int), Seq::empty()),
                decreases cs.len() - k,
            {
                let piece = resolve_chunk(&cs[k], dirs);
                push_str(&mut joined, piece.as_str());
                assert(rs.take(k + 1).drop_last() =~= rs.take(k as int));
                assert(joined@ =~= join(rs.take(k + 1), Seq::empty()));
                k = k + 1;
            }
            assert(rs.take(cs.len() as int) =~= rs);
            chars_of(joined.as_str())
        },
    };
    tokenize_chars(&t, input, &spans, &kinds)
}


/// The redirection that a token names: `>` and `1>` send standard output to
/// a file, `2>` standard error, `>>` and `1>>` append standard output,
/// `2>>` append standard error.
pub open spec fn redirect_kind(tok: Seq<char>) -> Option<Target> {
    if tok == ">"@ || tok == "1>"@ {
        Some(Target::Stdout)
    } else if tok == "2>"@ {
        Some(Target::Stderr)
    } else if tok == ">>"@ || tok == "1>>"@ {
        Some(Target::StdoutAppend)
    } else if tok == "2>>"@ {
        Some(Target::StderrAppend)
    } else {
        Option::None
    }
}

/// The redirection that `tok` names, if any.
pub fn redirect_of(tok: &str) -> (r: Option<Target>)
    ensures
        r == redirect_kind(tok@),
{
    if str_eq(tok, ">") || str_eq(tok, "1>") {
        Some(Target::Stdout)
    } else if str_eq(tok, "2>") {
        Some(Target::Stderr)
    } else if str_eq(tok, ">>") || str_eq(tok, "1>>") {
        Some(Target::StdoutAppend)
    } else if str_eq(tok, "2>>") {
        Some(Target::StderrAppend)
    } else {
        None
    }
}

/// The arguments and the target after looking at the first `n` tokens of
/// `t`: at each redirection token, at position `i`, the tokens between the
/// command and it are appended to the arguments, and the target becomes the
/// tokens after it, run together, with the redirection's kind.
pub open spec fn redirect_scan(t: Seq<Seq<char>>, n: int) -> (Seq<Seq<char>>, Option<(Seq<char>, Target)>)
    decreases n,
{
    if n <= 0 {
        (Seq::empty(), Option::None)
    } else {
        let st = redirect_scan(t, n - 1);
        let i = n - 1;
        match redirect_kind(t[i]) {
            Some(k) => (
                st.0 + (if i >= 1 { t.subrange(1, i) } else { Seq::empty() }),
                Some((join(t.skip(i + 1), Seq::empty()), k)),
            ),
            Option::None => st,
        }
    }
}

/// The command, its arguments and where its output goes, for the tokens
/// `t` of a command line: without a redirection token, the first token and
/// the rest; with one, as `redirect_scan` finds them.
pub open spec fn split_tokens(t: Seq<Seq<char>>) -> (Seq<char>, Seq<Seq<char>>, Option<(Seq<char>, Target)>) {
    let sc = redirect_scan(t, t.len() as int);
    if sc.1 is Some {
        (t[0], sc.0, sc.1)
    } else {
        (t[0], t.skip(1), Option::None)
    }
}

proof fn lemma_redirect_scan_none(t: Seq<Seq<char>>, n: int)
    requires
        0 <= n <= t.len(),
        forall|i: int| 0 <= i < n ==> redirect_kind(#[trigger] t[i]) is None,
    ensures
        redirect_scan(t, n) == (Seq::<Seq<char>>::empty(), Option::<(Seq<char>, Target)>::None),
    decreases n,
{
    if n > 0 {
        lemma_redirect_scan_none(t, n - 1);
    }
}

/// Without a redirection token, the first token is the command and the
/// others are its arguments, and the output is not redirected.
pub proof fn lemma_split_without_redirect(t: Seq<Seq<char>>)
    requires
        t.len() > 0,
        forall|i: int| 0 <= i < t.len() ==> redirect_kind(#[trigger] t[i]) is None,
    ensures
        split_tokens(t) == (t[0], t.skip(1), Option::<(Seq<char>, Target)>::None),
{
    lemma_redirect_scan_none(t, t.len() as int);
}

proof fn lemma_redirect_scan_after(t: Seq<Seq<char>>, i: int, n: int)
    requires
        0 <= i < n <= t.len(),
        redirect_kind(t[i]) is Some,
        forall|j: int| i < j < n ==> redirect_kind(#[trigger] t[j]) is None,
    ensures
        redirect_scan(t, n).1 == Some((join(t.skip(i + 1), Seq::empty()), redirect_kind(t[i]).unwrap())),
    decreases n,
{
    if n > i + 1 {
        lemma_redirect_scan_after(t, i, n - 1);
    }
}

/// The output goes where the last redirection token says: to the tokens
/// after it, run together, with its kind.
pub proof fn lemma_last_redirect_wins(t: Seq<Seq<char>>, i: int)
    requires
        0 <= i < t.len(),
        redirect_kind(t[i]) is Some,
        forall|j: int| i < j < t.len() ==> redirect_kind(#[trigger] t[j]) is None,
    ensures
        split_tokens(t).2 == Some((join(t.skip(i + 1), Seq::empty()), redirect_kind(t[i]).unwrap())),
        split_tokens(t).0 == t[0],
{
    lemma_redirect_scan_after(t, i, t.len() as int);
}

/// The view of a redirection target.
pub open spec fn target_view(t: Option<(String, Target)>) -> Option<(Seq<char>, Target)> {
    match t {
        Some((f, k)) => Some((f@, k)),
        Option::None => Option::None,
    }
}

/// The command line `input` can be split into a command and its arguments:
/// it can be tokenized, and yields at least one token.
pub open spec fn cmd_split_pre(input: Seq<char>, dirs: Seq<(Seq<char>, Seq<char>)>) -> bool {
    &&& parse_args_pre(trimmed(input))
    &&& parsed_args(trimmed(input), dirs).len() > 0
}

/// Splits a command line into the command, its arguments and the file its
/// output is redirected to, if any.
pub fn cmd_split(input: &str, dirs: &Vec<(String, String)>) -> (r: (String, Vec<String>, Option<(String, Target)>))
    requires
        cmd_split_pre(input@, dirs.deep_view()),
    ensures
        ({
            let sp = split_tokens(parsed_args(trimmed(input@), dirs.deep_view()));
            &&& r.0@ == sp.0
            &&& r.1.deep_view() == sp.1
            &&& target_view(r.2) == sp.2
        }),
{
    let trimmed_input = trim(input);
    let temp = parse_args(trimmed_input.as_str(), dirs);
    let ghost t = temp.deep_view();
    let mut args: Vec<String> = Vec::new();
    let mut target: Option<(String, Target)> = None;
    let mut i: usize = 0;
    assert(args.deep_view() =~= redirect_scan(t, 0).0);
    while i < temp.len()
        invariant
            i <= temp.len(),
            t == temp.deep_view(),
            temp.len() > 0,
            args.deep_view() == redirect_scan(t, i as int).0,
            target_view(target) == redirect_scan(t, i as int).1,
        decreases temp.len() - i,
    {
        assert(t[i as int] == temp[i as int]@);
        match redirect_of(temp[i].as_str()) {
            Some(kind) => {
                let ghost before = args.deep_view();
                let mut j: usize = 1;
                while j < i
                    invariant
                        1 <= j <= i || (j == 1 && i == 0),
                        i < temp.len(),
                        t == temp.deep_view(),
                        redirect_kind(t[i as int]) == Some(kind),
                        args.deep_view() == before + (if j >= 1 && i >= 1 { t.subrange(1, j as int) } else { Seq::empty() }),
                    decreases i - j,
                {
                    let ghost prev = args.deep_view();
                    args.push(temp[j].clone());
                    assert(args.deep_view() =~= prev.push(t[j as int]));
                    assert(t.subrange(1, j + 1) =~= t.subrange(1, j as int).push(t[j as int]));
                    j = j + 1;
                }
                assert(args.deep_view() =~= before + (if i >= 1 { t.subrange(1, i as int) } else { Seq::empty() }));
                let file = join_range(&temp, i + 1, temp.len(), "");
                proof {
                    reveal_strlit("");
                }
                assert(""@ =~= Seq::<char>::empty());
                assert(t.subrange(i + 1, temp.len() as int) =~= t.skip(i + 1));
                target = Some((file, kind));
            },
            None => {},
        }
        i = i + 1;
    }
    let cmd = temp[0].clone();
    if target.is_some() {
        (cmd, args, target)
    } else {
        let mut rest: Vec<String> = Vec::new();
        let mut j: usize = 1;
        while j < temp.len()
            invariant
                1 <= j <= temp.len(),
                t == temp.deep_view(),
                rest.deep_view() == t.subrange(1, j as int),
            decreases temp.len() - j,
        {
            let ghost prev = rest.deep_view();
            rest.push(temp[j].clone());
            assert(rest.deep_view() =~= prev.push(t[j as int]));
            assert(t.subrange(1, j + 1) =~= t.subrange(1, j as int).push(t[j as int]));
            j = j + 1;
        }
        assert(t.subrange(1, temp.len() as int) =~= t.skip(1));
        (cmd, rest, None)
    }
}

/// What the command `input` denotes: one of the shell's own commands, a
/// program found on the search path (`on_path` says whether one was), or
/// nothing.
pub fn cmd_type(input: &str, on_path: bool) -> (r: Type)
    ensures
        r == (if is_builtin_name(input@) {
            Type::BuiltIn
        } else if on_path {
            Type::PathExec
        } else {
            Type::Invalid
        }),
{
    if is_builtin(input) {
        Type::BuiltIn
    } else if on_path {
        Type::PathExec
    } else {
        Type::Invalid
    }
}

/// Parses a command line into the kind of command, the command, its
/// arguments and the redirection of its output. `dirs` pairs directory
/// chunks with their resolved paths; `on_path` says whether the command
/// was found on the search path.
pub fn parse(input: &str, dirs: &Vec<(String, String)>, on_path: bool) -> (r: (Type, String, Vec<String>, Option<(String, Target)>))
    requires
        cmd_split_pre(input@, dirs.deep_view()),
    ensures
        ({
            let sp = split_tokens(parsed_args(trimmed(input@), dirs.deep_view()));
            &&& r.1@ == sp.0
            &&& r.2.deep_view() == sp.1
            &&& target_view(r.3) == sp.2
            &&& r.0 == (if is_builtin_name(sp.0) {
                Type::BuiltIn
            } else if on_path {
                Type::PathExec
            } else {
                Type::Invalid
            })
        }),
{
    let trimmed_input = trim(input);
    proof {
        lemma_trimmed_idempotent(input@);
    }
    let (cmd, args, target) = cmd_split(trimmed_input.as_str(), dirs);
    let t = cmd_type(cmd.as_str(), on_path);
    (t, cmd, args, target)
}


/// A path with a leading `~` piece: the trimmed path, cut at slashes, with
/// a first piece `~` replaced by `home`, joined with slashes again; `None`
/// for a blank path.
pub open spec fn tilde_expanded(input: Seq<char>, home: Seq<char>) -> Option<Seq<char>> {
    let d = trimmed(input);
    if d.len() == 0 {
        Option::None
    } else {
        let ps = split_on(d, '/');
        let ps2 = if ps[0] == seq!['~'] { ps.update(0, home) } else { ps };
        Some(join(ps2, seq!['/']))
    }
}

/// The path that `to_directory` resolves for `input`, before it is made
/// canonical: blank gives none; a first piece `~` becomes `home`.
pub fn expand_tilde(input: &str, home: &str) -> (r: Option<String>)
    ensures
        match r {
            Some(p) => tilde_expanded(input@, home@) == Some(p@),
            None => tilde_expanded(input@, home@) is None,
        },
{
    let dir = trim(input);
    if dir.as_str().is_empty() {
        return None;
    }
    let mut split = split_chars(&chars_of(dir.as_str()), '/');
    proof {
        lemma_split_on_nonempty(dir@, '/');
        reveal_strlit("~");
        reveal_strlit("/");
    }
    assert("~"@ =~= seq!['~']);
    assert("/"@ =~= seq!['/']);
    let ghost ps = split.deep_view();
    assert(split.deep_view()[0] == split[0]@);
    if str_eq(split[0].as_str(), "~") {
        split.set(0, home.to_string());
        assert(split.deep_view() =~= ps.update(0, home@));
    }
    Some(join_all(&split, "/"))
}

/// How `cd` goes to a directory.
#[derive(Debug)]
pub enum CdPlan {
    /// Go to the home directory.
    Home,
    /// A path under the home directory: print each of `steps`, go to the
    /// home directory, then change to `target` (the last step).
    Expand { steps: Vec<String>, target: String },
    /// Go to this path made canonical, or stay where `.` is when it cannot
    /// be, saying `<path>: No such file or directory`.
    Path(String),
}

/// The paths `home/p1`, `home/p1/p2`, ... for the pieces `ps[1..n]`.
pub open spec fn home_steps(home: Seq<char>, ps: Seq<Seq<char>>, n: int) -> Seq<Seq<char>>
    decreases n,
{
    if n <= 1 {
        Seq::empty()
    } else {
        let prev = home_steps(home, ps, n - 1);
        let last = if n - 1 <= 1 { home } else { prev.last() };
        prev.push(last + seq!['/'] + ps[n - 1])
    }
}

/// How `cd` goes to `input`: blank or `~` go home; a path whose first piece
/// is `~` goes through the home directory; any other path as it is.
pub open spec fn cd_plan(input: Seq<char>, home: Seq<char>) -> (int, Seq<Seq<char>>, Seq<char>) {
    let d = trimmed(input);
    if d.len() == 0 || d == seq!['~'] {
        (0, Seq::empty(), Seq::empty())
    } else {
        let ps = split_on(d, '/');
        if ps[0] == seq!['~'] {
            let steps = home_steps(home, ps, ps.len() as int);
            (1, steps, steps.last())
        } else {
            (2, Seq::empty(), d)
        }
    }
}

proof fn lemma_home_steps_len(home: Seq<char>, ps: Seq<Seq<char>>, n: int)
    ensures
        home_steps(home, ps, n).len() == if n <= 1 { 0 } else { n - 1 },
    decreases n,
{
    if n > 1 {
        lemma_home_steps_len(home, ps, n - 1);
    }
}

/// Plans `cd input` with the home directory `home`.
pub fn plan_cd(input: &str, home: &str) -> (r: CdPlan)
    ensures
        match r {
            CdPlan::Home => cd_plan(input@, home@).0 == 0,
            CdPlan::Expand { steps, target } => cd_plan(input@, home@).0 == 1 && cd_plan(
                input@,
                home@,
            ).1 == steps.deep_view() && cd_plan(input@, home@).2 == target@,
            CdPlan::Path(p) => cd_plan(input@, home@).0 == 2 && cd_plan(input@, home@).2 == p@,
        },
{
    let dir = trim(input);
    proof {
        reveal_strlit("~");
    }
    assert("~"@ =~= seq!['~']);
    if dir.as_str().is_empty() || str_eq(dir.as_str(), "~") {
        return CdPlan::Home;
    }
    let split = split_chars(&chars_of(dir.as_str()), '/');
    let ghost ps = split.deep_view();
    proof {
        lemma_split_on_nonempty(dir@, '/');
    }
    assert(ps[0] == split[0]@);
    if !str_eq(split[0].as_str(), "~") {
        return CdPlan::Path(dir);
    }
    let mut steps: Vec<String> = Vec::new();
    let mut new_dir = home.to_string();
    let mut i: usize = 1;
    assert(steps.deep_view() =~= home_steps(home@, ps, 1));
    while i < split.len()
        invariant
            1 <= i <= split.len(),
            ps == split.deep_view(),
            steps.deep_view() == home_steps(home@, ps, i as int),
            new_dir@ == (if i <= 1 { home@ } else { home_steps(home@, ps, i as int).last() }),
        decreases split.len() - i,
    {
        new_dir.push('/');
        push_str(&mut new_dir, split[i].as_str());
        assert(new_dir@ =~= (if i <= 1 { home@ } else { home_steps(home@, ps, i as int).last() }) + seq!['/'] + ps[i as int]);
        let ghost prev = steps.deep_view();
        steps.push(new_dir.clone());
        assert(steps.deep_view() =~= prev.push(new_dir@));
        i = i + 1;
    }
    proof {
        lemma_home_steps_len(home@, ps, ps.len() as int);
        if ps.len() == 1 {
            lemma_join_split(dir@, '/');
            assert(join(ps, seq!['/']) == ps[0]);
            assert(dir@ == seq!['~']);
        }
    }
    CdPlan::Expand { steps, target: new_dir }
}

} // verus!
