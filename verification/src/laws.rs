//! Global properties of the splitter, proved against the model.
//!
//! * On inputs free of brackets, quotes and pipes the splitter is exactly
//!   the naive comma split (`lemma_plain_split`).
//! * A successful scan always yields at least one attribute: the trailing
//!   attribute is flushed even without a final comma
//!   (`lemma_final_flush`).
//! * The recorded spans run left to right and partition the input, each
//!   internal boundary a top-level comma (`lemma_spans_partition`).
//! * An input whose first non-white-space character is a pipe is rejected
//!   (`lemma_leading_pipe_rejected`).
//! * Splitting is idempotent: re-splitting any produced attribute yields a
//!   single attribute equal to it (`lemma_split_idempotent`).

use vstd::prelude::*;

use crate::model::{
    close_spec, escaped_at, is_opener, is_ws, lemma_skip_quote_ge, lemma_skip_quote_le,
    lemma_skip_region_ge, lemma_skip_region_le, lemma_scan_quote, lemma_scan_region, pipe_ok,
    scan_all, scan_spans, skip_quote, skip_region, split_spec, trim, trim_from, trim_upto,
};

verus! {

/// A white-space character is ordinary for the scan: it is no bracket, no
/// quote, no pipe and no comma.
proof fn lemma_ws_ordinary(c: char)
    requires
        is_ws(c),
    ensures
        !is_opener(c),
        c != '\'',
        c != '"',
        c != '|',
        c != ',',
{
}

/// The spans of the naive comma split: the input cut at every comma, with a
/// final span reaching the end of the input.
pub open spec fn comma_spans(s: Seq<char>, i: int, mark: int, acc: Seq<(int, int)>) -> Seq<
    (int, int),
>
    decreases s.len() - i,
{
    if i >= s.len() {
        acc.push((mark, s.len() as int))
    } else if s[i] == ',' {
        comma_spans(s, i + 1, i + 1, acc.push((mark, i)))
    } else {
        comma_spans(s, i + 1, mark, acc)
    }
}

/// The naive split: the input cut at every comma and each piece trimmed.
pub open spec fn naive_split(s: Seq<char>) -> Seq<Seq<char>> {
    let spans = comma_spans(s, 0, 0, Seq::empty());
    Seq::new(spans.len(), |k: int| trim(s.subrange(spans[k].0, spans[k].1)))
}

/// An input without brackets, quotes or pipes.
pub open spec fn plain_input(s: Seq<char>) -> bool {
    forall|k: int|
        0 <= k < s.len() ==> {
            let c = #[trigger] s[k];
            &&& !is_opener(c)
            &&& c != ')'
            &&& c != ']'
            &&& c != '}'
            &&& c != '>'
            &&& c != '\''
            &&& c != '"'
            &&& c != '|'
        }
}

proof fn lemma_plain_scan(s: Seq<char>, i: int, mark: int, acc: Seq<(int, int)>)
    requires
        plain_input(s),
        0 <= i,
    ensures
        scan_all(s, i, mark, Seq::empty(), None, acc) == Some(comma_spans(s, i, mark, acc)),
    decreases s.len() - i,
{
    if i >= s.len() {
    } else if s[i] == ',' {
        lemma_plain_scan(s, i + 1, i + 1, acc.push((mark, i)));
    } else {
        lemma_plain_scan(s, i + 1, mark, acc);
    }
}

/// On an input containing no brackets, quotes or pipes, the splitter
/// returns exactly the comma-split, white-space-trimmed pieces of the
/// input.
pub proof fn lemma_plain_split(s: Seq<char>)
    requires
        plain_input(s),
    ensures
        split_spec(s) == Some(naive_split(s)),
{
    lemma_plain_scan(s, 0, 0, Seq::empty());
}

proof fn lemma_scan_grows(s: Seq<char>, i: int, mark: int, st: Seq<char>, qt: Option<char>, acc: Seq<(int, int)>)
    requires
        scan_all(s, i, mark, st, qt, acc) is Some,
    ensures
        scan_all(s, i, mark, st, qt, acc).unwrap().len() > acc.len(),
        scan_all(s, i, mark, st, qt, acc).unwrap().last().1 == s.len() as int,
    decreases s.len() - i,
{
    if i >= s.len() {
    } else {
        match qt {
            Some(q) => {
                if s[i] == q && !escaped_at(s, i) {
                    lemma_scan_grows(s, i + 1, mark, st, None, acc);
                } else {
                    lemma_scan_grows(s, i + 1, mark, st, qt, acc);
                }
            },
            None => {
                let c = s[i];
                if st.len() > 0 {
                    if c == '<' {
                        lemma_scan_grows(s, i + 1, mark, st, qt, acc);
                    } else if is_opener(c) {
                        lemma_scan_grows(s, i + 1, mark, st.push(close_spec(c).unwrap()), qt, acc);
                    } else if c == st.last() {
                        lemma_scan_grows(s, i + 1, mark, st.drop_last(), qt, acc);
                    } else {
                        lemma_scan_grows(s, i + 1, mark, st, qt, acc);
                    }
                } else {
                    if is_opener(c) {
                        lemma_scan_grows(s, i + 1, mark, seq![close_spec(c).unwrap()], qt, acc);
                    } else if (c == '\'' || c == '"') && !escaped_at(s, i) {
                        lemma_scan_grows(s, i + 1, mark, st, Some(c), acc);
                    } else if c == '|' {
                        if pipe_ok(s, mark, i) {
                            lemma_scan_grows(s, i + 1, mark, st, qt, acc);
                        }
                    } else if c == ',' {
                        lemma_scan_grows(s, i + 1, i + 1, st, qt, acc.push((mark, i)));
                    } else {
                        lemma_scan_grows(s, i + 1, mark, st, qt, acc);
                    }
                }
            },
        }
    }
}

/// A successful split always holds at least one attribute, and the last
/// recorded span reaches the end of the input: the pending attribute is
/// flushed at the end of the input even when no final comma stands there.
pub proof fn lemma_final_flush(s: Seq<char>)
    requires
        split_spec(s) is Some,
    ensures
        split_spec(s).unwrap().len() >= 1,
        scan_spans(s).unwrap().last().1 == s.len(),
{
    lemma_scan_grows(s, 0, 0, Seq::empty(), None, Seq::empty());
}

proof fn lemma_leading_pipe_scan(s: Seq<char>, i: int, p: int, acc: Seq<(int, int)>)
    requires
        0 <= i <= p < s.len(),
        s[p] == '|',
        forall|q: int| 0 <= q < p ==> is_ws(#[trigger] s[q]),
    ensures
        scan_all(s, i, 0, Seq::empty(), None, acc) is None,
    decreases p - i,
{
    if i == p {
        assert(!pipe_ok(s, 0, p));
    } else {
        lemma_ws_ordinary(s[i]);
        lemma_leading_pipe_scan(s, i + 1, p, acc);
    }
}

/// Spans recorded before a scan starts are carried through unchanged: a
/// scan with accumulator `acc` returns `acc` followed by whatever a scan
/// with an empty accumulator returns.
proof fn lemma_scan_frame(
    s: Seq<char>,
    i: int,
    mark: int,
    st: Seq<char>,
    qt: Option<char>,
    acc: Seq<(int, int)>,
)
    ensures
        scan_all(s, i, mark, st, qt, acc) == (match scan_all(s, i, mark, st, qt, Seq::empty()) {
            None => None::<Seq<(int, int)>>,
            Some(r) => Some(acc + r),
        }),
    decreases s.len() - i,
{
    if i >= s.len() {
        assert(acc.push((mark, s.len() as int)) =~= acc + Seq::empty().push(
            (mark, s.len() as int),
        ));
    } else {
        match qt {
            Some(q) => {
                if s[i] == q && !escaped_at(s, i) {
                    lemma_scan_frame(s, i + 1, mark, st, None, acc);
                } else {
                    lemma_scan_frame(s, i + 1, mark, st, qt, acc);
                }
            },
            None => {
                let c = s[i];
                if st.len() > 0 {
                    if c == '<' {
                        lemma_scan_frame(s, i + 1, mark, st, qt, acc);
                    } else if is_opener(c) {
                        lemma_scan_frame(s, i + 1, mark, st.push(close_spec(c).unwrap()), qt, acc);
                    } else if c == st.last() {
                        lemma_scan_frame(s, i + 1, mark, st.drop_last(), qt, acc);
                    } else {
                        lemma_scan_frame(s, i + 1, mark, st, qt, acc);
                    }
                } else {
                    if is_opener(c) {
                        lemma_scan_frame(s, i + 1, mark, seq![close_spec(c).unwrap()], qt, acc);
                    } else if (c == '\'' || c == '"') && !escaped_at(s, i) {
                        lemma_scan_frame(s, i + 1, mark, st, Some(c), acc);
                    } else if c == '|' {
                        if pipe_ok(s, mark, i) {
                            lemma_scan_frame(s, i + 1, mark, st, qt, acc);
                        }
                    } else if c == ',' {
                        lemma_scan_frame(s, i + 1, i + 1, st, qt, acc.push((mark, i)));
                        lemma_scan_frame(s, i + 1, i + 1, st, qt, Seq::empty().push((mark, i)));
                        if scan_all(s, i + 1, i + 1, st, qt, Seq::empty()) is Some {
                            let r2 = scan_all(s, i + 1, i + 1, st, qt, Seq::empty()).unwrap();
                            assert(acc.push((mark, i)) + r2 =~= acc + (Seq::empty().push(
                                (mark, i),
                            ) + r2));
                        }
                    } else {
                        lemma_scan_frame(s, i + 1, mark, st, qt, acc);
                    }
                }
            },
        }
    }
}

/// The first span a top-level scan yields: it starts at the current mark
/// and ends either at the end of the input (and is then the only span) or
/// at a comma, after which the rest of the spans come from the scan of the
/// remainder.
proof fn lemma_scan_head(s: Seq<char>, i: int, mark: int)
    requires
        0 <= i <= s.len(),
        scan_all(s, i, mark, Seq::empty(), None, Seq::empty()) is Some,
    ensures
        ({
            let r = scan_all(s, i, mark, Seq::empty(), None, Seq::empty()).unwrap();
            &&& r.len() >= 1
            &&& r[0].0 == mark
            &&& i <= r[0].1 <= s.len()
            &&& (r[0].1 < s.len() ==> s[r[0].1] == ',' && scan_all(
                s,
                r[0].1 + 1,
                r[0].1 + 1,
                Seq::empty(),
                None,
                Seq::empty(),
            ) == Some(r.drop_first()))
            &&& (r[0].1 == s.len() ==> r.len() == 1)
        }),
    decreases s.len() - i,
{
    let r = scan_all(s, i, mark, Seq::empty(), None, Seq::empty()).unwrap();
    if i >= s.len() {
    } else {
        let c = s[i];
        if is_opener(c) {
            let cl = close_spec(c).unwrap();
            lemma_scan_region(s, i + 1, mark, seq![cl], Seq::empty());
            lemma_skip_region_ge(s, i + 1, seq![cl]);
            lemma_skip_region_le(s, i + 1, seq![cl]);
            lemma_scan_head(s, skip_region(s, i + 1, seq![cl]), mark);
        } else if (c == '\'' || c == '"') && !escaped_at(s, i) {
            lemma_scan_quote(s, i + 1, mark, c, Seq::empty());
            lemma_skip_quote_ge(s, i + 1, c);
            lemma_skip_quote_le(s, i + 1, c);
            lemma_scan_head(s, skip_quote(s, i + 1, c), mark);
        } else if c == '|' {
            if pipe_ok(s, mark, i) {
                lemma_scan_head(s, i + 1, mark);
            }
        } else if c == ',' {
            lemma_scan_frame(s, i + 1, i + 1, Seq::empty(), None, Seq::empty().push((mark, i)));
            let r2 = scan_all(s, i + 1, i + 1, Seq::empty(), None, Seq::empty()).unwrap();
            assert(r == Seq::empty().push((mark, i)) + r2);
            assert(r[0] == (mark, i));
            assert(r.drop_first() =~= r2);
        } else {
            lemma_scan_head(s, i + 1, mark);
        }
    }
}

/// Where attribute `k` of a successful scan stands: its span starts just
/// after the previous boundary comma (or at the input start), ends at the
/// next boundary comma (or the input end), and scanning from its start
/// yields exactly the remaining spans.
proof fn lemma_attr_scan(s: Seq<char>, k: int)
    requires
        scan_spans(s) is Some,
        0 <= k < scan_spans(s).unwrap().len(),
    ensures
        ({
            let spans = scan_spans(s).unwrap();
            &&& scan_all(s, spans[k].0, spans[k].0, Seq::empty(), None, Seq::empty()) == Some(
                spans.skip(k),
            )
            &&& 0 <= spans[k].0 <= spans[k].1 <= s.len()
            &&& (spans[k].0 == 0 || s[spans[k].0 - 1] == ',')
            &&& (spans[k].1 == s.len() || s[spans[k].1] == ',')
            &&& (k == 0 ==> spans[k].0 == 0)
            &&& (k > 0 ==> spans[k].0 == spans[k - 1].1 + 1)
            &&& (spans[k].1 == s.len() <==> k == spans.len() - 1)
        }),
    decreases k,
{
    let spans = scan_spans(s).unwrap();
    if k == 0 {
        assert(spans.skip(0) =~= spans);
        lemma_scan_head(s, 0, 0);
        if spans[0].1 < s.len() {
            lemma_scan_grows(
                s,
                spans[0].1 + 1,
                spans[0].1 + 1,
                Seq::empty(),
                None,
                Seq::empty(),
            );
        } else {
        }
    } else {
        lemma_attr_scan(s, k - 1);
        let a1 = spans[k - 1].0;
        let b1 = spans[k - 1].1;
        let r1 = spans.skip(k - 1);
        lemma_scan_head(s, a1, a1);
        assert(r1[0] == spans[k - 1]);
        assert(r1.len() == spans.len() - (k - 1));
        assert(b1 < s.len()) by {
            if b1 == s.len() {
                assert(r1.len() == 1);
            }
        }
        assert(scan_all(s, b1 + 1, b1 + 1, Seq::empty(), None, Seq::empty()) == Some(
            r1.drop_first(),
        ));
        assert(r1.drop_first() =~= spans.skip(k));
        lemma_scan_head(s, b1 + 1, b1 + 1);
        assert(spans.skip(k)[0] == spans[k]);
        assert(spans[k].0 == b1 + 1);
        if spans[k].1 < s.len() {
            lemma_scan_grows(
                s,
                spans[k].1 + 1,
                spans[k].1 + 1,
                Seq::empty(),
                None,
                Seq::empty(),
            );
            assert(spans.skip(k).len() >= 2);
        } else {
            assert(spans.skip(k).len() == 1);
        }
    }
}

/// The recorded spans partition the input: they run left to right, each
/// span starts where the previous boundary comma ended, boundaries other
/// than the input's end are commas, and exactly the last span reaches the
/// end of the input.
pub proof fn lemma_spans_partition(s: Seq<char>, k: int)
    requires
        scan_spans(s) is Some,
        0 <= k < scan_spans(s).unwrap().len(),
    ensures
        ({
            let spans = scan_spans(s).unwrap();
            &&& 0 <= spans[k].0 <= spans[k].1 <= s.len()
            &&& (k == 0 ==> spans[k].0 == 0)
            &&& (k > 0 ==> spans[k].0 == spans[k - 1].1 + 1 && s[spans[k].0 - 1] == ',')
            &&& (spans[k].1 == s.len() <==> k == spans.len() - 1)
            &&& (k < spans.len() - 1 ==> s[spans[k].1] == ',')
        }),
{
    lemma_attr_scan(s, k);
}

/// Stepping a top-level scan over white space changes nothing but the
/// cursor.
proof fn lemma_scan_ws(s: Seq<char>, i: int, j: int, mark: int, acc: Seq<(int, int)>)
    requires
        0 <= i <= j <= s.len(),
        forall|q: int| i <= q < j ==> is_ws(#[trigger] s[q]),
    ensures
        scan_all(s, i, mark, Seq::empty(), None, acc) == scan_all(
            s,
            j,
            mark,
            Seq::empty(),
            None,
            acc,
        ),
    decreases j - i,
{
    if i < j {
        lemma_ws_ordinary(s[i]);
        lemma_scan_ws(s, i + 1, j, mark, acc);
    }
}

/// A bracket scan that closes within a window of the input behaves the
/// same on the window alone, shifted by the window's start.
proof fn lemma_skip_region_shift(s: Seq<char>, a: int, b: int, i: int, st: Seq<char>)
    requires
        0 <= a <= i <= b <= s.len(),
        skip_region(s, i, st) <= b,
    ensures
        skip_region(s.subrange(a, b), i - a, st) == skip_region(s, i, st) - a,
    decreases s.len() - i,
{
    let s2 = s.subrange(a, b);
    if st.len() == 0 {
    } else if i >= b {
        lemma_skip_region_ge(s, i, st);
        if b < s.len() {
            let c = s[i];
            if c == '<' {
                lemma_skip_region_ge(s, i + 1, st);
            } else if is_opener(c) {
                lemma_skip_region_ge(s, i + 1, st.push(close_spec(c).unwrap()));
            } else if c == st.last() {
                lemma_skip_region_ge(s, i + 1, st.drop_last());
            } else {
                lemma_skip_region_ge(s, i + 1, st);
            }
            assert(false);
        }
    } else {
        assert(s2[i - a] == s[i]);
        let c = s[i];
        if c == '<' {
            lemma_skip_region_shift(s, a, b, i + 1, st);
        } else if is_opener(c) {
            lemma_skip_region_shift(s, a, b, i + 1, st.push(close_spec(c).unwrap()));
        } else if c == st.last() {
            if st.len() == 1 {
                assert(skip_region(s, i + 1, st.drop_last()) == i + 1);
                assert(skip_region(s2, i - a + 1, st.drop_last()) == i - a + 1);
            } else {
                lemma_skip_region_shift(s, a, b, i + 1, st.drop_last());
            }
        } else {
            lemma_skip_region_shift(s, a, b, i + 1, st);
        }
    }
}

/// A bracket scan that does not close within a window of the input runs to
/// the window's end when the window is scanned alone.
proof fn lemma_skip_region_trunc(s: Seq<char>, a: int, b: int, i: int, st: Seq<char>)
    requires
        0 <= a <= i <= b <= s.len(),
        skip_region(s, i, st) > b,
    ensures
        skip_region(s.subrange(a, b), i - a, st) == b - a,
    decreases s.len() - i,
{
    let s2 = s.subrange(a, b);
    if st.len() == 0 {
        assert(false);
    } else if i == b {
    } else {
        assert(s2[i - a] == s[i]);
        let c = s[i];
        if c == '<' {
            lemma_skip_region_trunc(s, a, b, i + 1, st);
        } else if is_opener(c) {
            lemma_skip_region_trunc(s, a, b, i + 1, st.push(close_spec(c).unwrap()));
        } else if c == st.last() {
            if st.len() == 1 {
                assert(skip_region(s, i + 1, st.drop_last()) == i + 1);
                assert(false);
            } else {
                lemma_skip_region_trunc(s, a, b, i + 1, st.drop_last());
            }
        } else {
            lemma_skip_region_trunc(s, a, b, i + 1, st);
        }
    }
}

/// Where a bracket scan with a stack of non-white-space closers ends:
/// either at the end of the input, or just past a non-white-space
/// character (the closer that emptied the stack).
proof fn lemma_skip_region_end(s: Seq<char>, i: int, st: Seq<char>)
    requires
        0 <= i <= s.len(),
        st.len() > 0,
        forall|k: int| 0 <= k < st.len() ==> !is_ws(#[trigger] st[k]),
    ensures
        skip_region(s, i, st) == s.len() || (skip_region(s, i, st) >= i + 1 && !is_ws(
            s[skip_region(s, i, st) - 1],
        )),
    decreases s.len() - i,
{
    if i >= s.len() {
    } else {
        let c = s[i];
        if c == '<' {
            lemma_skip_region_end(s, i + 1, st);
        } else if is_opener(c) {
            let cl = close_spec(c).unwrap();
            assert(!is_ws(cl));
            assert(forall|k: int|
                0 <= k < st.push(cl).len() ==> !is_ws(#[trigger] st.push(cl)[k]));
            lemma_skip_region_end(s, i + 1, st.push(cl));
        } else if c == st.last() {
            if st.len() == 1 {
                assert(skip_region(s, i + 1, st.drop_last()) == i + 1);
                assert(!is_ws(s[i]));
            } else {
                assert(forall|k: int|
                    0 <= k < st.drop_last().len() ==> !is_ws(#[trigger] st.drop_last()[k]));
                lemma_skip_region_end(s, i + 1, st.drop_last());
            }
        } else {
            lemma_skip_region_end(s, i + 1, st);
        }
    }
}

/// A quote scan that closes within a window of the input behaves the same
/// on the window alone, shifted by the window's start.
proof fn lemma_skip_quote_shift(s: Seq<char>, a: int, b: int, i: int, q: char)
    requires
        0 <= a,
        a + 1 <= i <= b <= s.len(),
        skip_quote(s, i, q) <= b,
    ensures
        skip_quote(s.subrange(a, b), i - a, q) == skip_quote(s, i, q) - a,
    decreases s.len() - i,
{
    let s2 = s.subrange(a, b);
    if i >= b {
        lemma_skip_quote_ge(s, i, q);
        if b < s.len() {
            if s[i] == q && !escaped_at(s, i) {
            } else {
                lemma_skip_quote_ge(s, i + 1, q);
            }
            assert(false);
        }
    } else {
        assert(s2[i - a] == s[i]);
        assert(s2[i - a - 1] == s[i - 1]);
        assert(escaped_at(s2, i - a) == escaped_at(s, i));
        if s[i] == q && !escaped_at(s, i) {
        } else {
            lemma_skip_quote_shift(s, a, b, i + 1, q);
        }
    }
}

/// A quote scan that does not close within a window of the input runs to
/// the window's end when the window is scanned alone.
proof fn lemma_skip_quote_trunc(s: Seq<char>, a: int, b: int, i: int, q: char)
    requires
        0 <= a,
        a + 1 <= i <= b <= s.len(),
        skip_quote(s, i, q) > b,
    ensures
        skip_quote(s.subrange(a, b), i - a, q) == b - a,
    decreases s.len() - i,
{
    let s2 = s.subrange(a, b);
    if i == b {
    } else {
        assert(s2[i - a] == s[i]);
        assert(s2[i - a - 1] == s[i - 1]);
        assert(escaped_at(s2, i - a) == escaped_at(s, i));
        if s[i] == q && !escaped_at(s, i) {
            assert(false);
        } else {
            lemma_skip_quote_trunc(s, a, b, i + 1, q);
        }
    }
}

/// Where a quote scan ends: either at the end of the input, or just past
/// the closing quote character.
proof fn lemma_skip_quote_end(s: Seq<char>, i: int, q: char)
    requires
        0 <= i <= s.len(),
    ensures
        skip_quote(s, i, q) == s.len() || (skip_quote(s, i, q) >= i + 1 && s[skip_quote(s, i, q)
            - 1] == q),
    decreases s.len() - i,
{
    if i >= s.len() {
    } else if s[i] == q && !escaped_at(s, i) {
    } else {
        lemma_skip_quote_end(s, i + 1, q);
    }
}

/// Pipe placement transfers to a window that drops only white space before
/// the attribute's first token.
proof fn lemma_pipe_shift(s: Seq<char>, a: int, b: int, m: int, p: int)
    requires
        0 <= m <= a <= p < b <= s.len(),
        forall|q: int| m <= q < a ==> is_ws(#[trigger] s[q]),
    ensures
        pipe_ok(s, m, p) == pipe_ok(s.subrange(a, b), 0, p - a),
{
    let s2 = s.subrange(a, b);
    if pipe_ok(s, m, p) {
        let q = choose|q: int| m <= q < p && !is_ws(#[trigger] s[q]);
        assert(a <= q);
        assert(s2[q - a] == s[q]);
        assert(pipe_ok(s2, 0, p - a));
    }
    if pipe_ok(s2, 0, p - a) {
        let q2 = choose|q2: int| 0 <= q2 < p - a && !is_ws(#[trigger] s2[q2]);
        assert(s2[q2] == s[q2 + a]);
        assert(pipe_ok(s, m, p));
    }
}

/// The first non-white-space position a left-to-right trim search finds.
proof fn lemma_trim_from_props(y: Seq<char>, i: int)
    requires
        0 <= i <= y.len(),
    ensures
        i <= trim_from(y, i) <= y.len(),
        forall|q: int| i <= q < trim_from(y, i) ==> is_ws(#[trigger] y[q]),
        trim_from(y, i) < y.len() ==> !is_ws(y[trim_from(y, i)]),
    decreases y.len() - i,
{
    if i >= y.len() {
    } else if is_ws(y[i]) {
        lemma_trim_from_props(y, i + 1);
    } else {
    }
}

/// The position where the trailing white-space run a right-to-left trim
/// search finds begins.
proof fn lemma_trim_upto_props(y: Seq<char>, j: int)
    requires
        0 <= j <= y.len(),
    ensures
        0 <= trim_upto(y, j) <= j,
        forall|q: int| trim_upto(y, j) <= q < j ==> is_ws(#[trigger] y[q]),
        trim_upto(y, j) > 0 ==> !is_ws(y[trim_upto(y, j) - 1]),
    decreases j,
{
    if j <= 0 {
    } else if is_ws(y[j - 1]) {
        lemma_trim_upto_props(y, j - 1);
    } else {
    }
}

/// A sequence that neither starts nor ends with white space is its own
/// trim.
proof fn lemma_trim_fixpoint(x: Seq<char>)
    requires
        x.len() == 0 || (!is_ws(x[0]) && !is_ws(x[x.len() - 1])),
    ensures
        trim(x) == x,
{
    if x.len() == 0 {
        assert(trim_from(x, 0) == 0);
        assert(trim_upto(x, 0) == 0);
        assert(x.subrange(0, 0) =~= x);
    } else {
        assert(trim_from(x, 0) == 0);
        assert(trim_upto(x, x.len() as int) == x.len() as int);
        assert(x.subrange(0, x.len() as int) =~= x);
    }
}

/// The heart of idempotence.  Take an attribute of the original input:
/// its scan ran at top level from the mark `m` to the boundary `bnd`, with
/// `[m, a)` the trimmed leading white space and `[b, bnd)` the trimmed
/// trailing white space.  Scanning the trimmed window `[a, b)` alone from
/// position `i` then finds no boundary and no misplaced pipe, and flushes
/// the whole window as its single attribute.
proof fn lemma_rescan(s: Seq<char>, a: int, b: int, m: int, bnd: int, i: int, rest: Seq<(int, int)>)
    requires
        0 <= m <= a <= i <= b <= bnd <= s.len(),
        scan_all(s, i, m, Seq::empty(), None, Seq::empty()) == Some(seq![(m, bnd)] + rest),
        forall|q: int| m <= q < a ==> is_ws(#[trigger] s[q]),
        forall|q: int| b <= q < bnd ==> is_ws(#[trigger] s[q]),
        m == 0 || s[m - 1] == ',',
    ensures
        scan_all(s.subrange(a, b), i - a, 0, Seq::empty(), None, Seq::empty()) == Some(
            seq![(0int, b - a)],
        ),
    decreases s.len() - i,
{
    let s2 = s.subrange(a, b);
    let r = seq![(m, bnd)] + rest;
    assert(r[0] == (m, bnd));
    if i >= b {
        assert(scan_all(s2, i - a, 0, Seq::empty(), None, Seq::empty()) == Some(
            Seq::empty().push((0int, s2.len() as int)),
        ));
        assert(Seq::empty().push((0int, s2.len() as int)) =~= seq![(0int, b - a)]);
    } else {
        let c = s[i];
        assert(s2[i - a] == s[i]);
        if is_opener(c) {
            let cl = close_spec(c).unwrap();
            lemma_scan_region(s, i + 1, m, seq![cl], Seq::empty());
            let j = skip_region(s, i + 1, seq![cl]);
            lemma_skip_region_ge(s, i + 1, seq![cl]);
            lemma_skip_region_le(s, i + 1, seq![cl]);
            lemma_scan_head(s, j, m);
            if j <= b {
                lemma_skip_region_shift(s, a, b, i + 1, seq![cl]);
                lemma_scan_region(s2, i - a + 1, 0, seq![cl], Seq::empty());
                lemma_rescan(s, a, b, m, bnd, j, rest);
            } else {
                assert(!is_ws(cl));
                lemma_skip_region_end(s, i + 1, seq![cl]);
                assert(j == s.len());
                lemma_skip_region_trunc(s, a, b, i + 1, seq![cl]);
                lemma_scan_region(s2, i - a + 1, 0, seq![cl], Seq::empty());
                assert(scan_all(s2, b - a, 0, Seq::empty(), None, Seq::empty()) == Some(
                    Seq::empty().push((0int, s2.len() as int)),
                ));
                assert(Seq::empty().push((0int, s2.len() as int)) =~= seq![(0int, b - a)]);
            }
        } else if c == '\'' || c == '"' {
            assert(escaped_at(s2, i - a) == escaped_at(s, i)) by {
                if i - a >= 1 {
                    assert(s2[i - a - 1] == s[i - 1]);
                } else {
                    if i >= 1 {
                        if a > m {
                            assert(is_ws(s[a - 1]));
                        }
                    }
                }
            }
            if !escaped_at(s, i) {
                lemma_scan_quote(s, i + 1, m, c, Seq::empty());
                let j = skip_quote(s, i + 1, c);
                lemma_skip_quote_ge(s, i + 1, c);
                lemma_skip_quote_le(s, i + 1, c);
                lemma_scan_head(s, j, m);
                if j <= b {
                    lemma_skip_quote_shift(s, a, b, i + 1, c);
                    lemma_scan_quote(s2, i - a + 1, 0, c, Seq::empty());
                    lemma_rescan(s, a, b, m, bnd, j, rest);
                } else {
                    lemma_skip_quote_end(s, i + 1, c);
                    assert(j == s.len());
                    lemma_skip_quote_trunc(s, a, b, i + 1, c);
                    lemma_scan_quote(s2, i - a + 1, 0, c, Seq::empty());
                    assert(scan_all(s2, b - a, 0, Seq::empty(), None, Seq::empty()) == Some(
                        Seq::empty().push((0int, s2.len() as int)),
                    ));
                    assert(Seq::empty().push((0int, s2.len() as int)) =~= seq![(0int, b - a)]);
                }
            } else {
                lemma_rescan(s, a, b, m, bnd, i + 1, rest);
            }
        } else if c == '|' {
            assert(pipe_ok(s, m, i));
            lemma_pipe_shift(s, a, b, m, i);
            lemma_rescan(s, a, b, m, bnd, i + 1, rest);
        } else if c == ',' {
            lemma_scan_frame(s, i + 1, i + 1, Seq::empty(), None, Seq::empty().push((m, i)));
            if scan_all(s, i + 1, i + 1, Seq::empty(), None, Seq::empty()) is Some {
                let r2 = scan_all(s, i + 1, i + 1, Seq::empty(), None, Seq::empty()).unwrap();
                assert((Seq::empty().push((m, i)) + r2)[0] == (m, i));
                assert(i == bnd);
                assert(false);
            } else {
                assert(false);
            }
        } else {
            lemma_rescan(s, a, b, m, bnd, i + 1, rest);
        }
    }
}

/// Splitting is idempotent: each attribute a successful split produces
/// contains no top-level comma and no misplaced pipe of its own, so
/// re-running the splitter on it yields a single attribute equal to it.
pub proof fn lemma_split_idempotent(s: Seq<char>, k: int)
    requires
        split_spec(s) is Some,
        0 <= k < split_spec(s).unwrap().len(),
    ensures
        split_spec(split_spec(s).unwrap()[k]) == Some(seq![split_spec(s).unwrap()[k]]),
{
    let spans = scan_spans(s).unwrap();
    lemma_attr_scan(s, k);
    let m = spans[k].0;
    let bnd = spans[k].1;
    let y = s.subrange(m, bnd);
    let x = split_spec(s).unwrap()[k];
    assert(x == trim(y));
    lemma_trim_from_props(y, 0);
    lemma_trim_upto_props(y, y.len() as int);
    let lo = trim_from(y, 0);
    let hi = trim_upto(y, y.len() as int);
    if lo >= hi {
        assert(x.len() == 0);
        assert(scan_all(x, 0, 0, Seq::empty(), None, Seq::empty()) == Some(
            Seq::empty().push((0int, 0int)),
        ));
        lemma_trim_fixpoint(x);
        assert(x.subrange(0int, 0int) =~= x);
        assert(split_spec(x).unwrap() =~= seq![x]);
    } else {
        let a = m + lo;
        let b = m + hi;
        assert(x =~= s.subrange(a, b)) by {
            assert forall|q: int| 0 <= q < hi - lo implies y.subrange(lo, hi)[q] == s.subrange(
                a,
                b,
            )[q] by {
                assert(y.subrange(lo, hi)[q] == y[lo + q]);
                assert(y[lo + q] == s[m + lo + q]);
            }
        }
        assert forall|q: int| m <= q < a implies is_ws(#[trigger] s[q]) by {
            assert(s[q] == y[q - m]);
        }
        assert forall|q: int| b <= q < bnd implies is_ws(#[trigger] s[q]) by {
            assert(s[q] == y[q - m]);
        }
        lemma_scan_ws(s, m, a, m, Seq::empty());
        assert(spans.skip(k) =~= seq![(m, bnd)] + spans.skip(k + 1));
        lemma_rescan(s, a, b, m, bnd, a, spans.skip(k + 1));
        assert(scan_all(x, 0, 0, Seq::empty(), None, Seq::empty()) == Some(seq![(0int, b - a)]));
        assert(x.len() == b - a);
        assert(x.subrange(0int, b - a) =~= x);
        assert(!is_ws(x[0])) by {
            assert(x[0] == y[lo]);
        }
        assert(!is_ws(x[x.len() - 1])) by {
            assert(x[x.len() - 1] == y[hi - 1]);
        }
        lemma_trim_fixpoint(x);
        assert(split_spec(x).unwrap() =~= seq![x]);
    }
}

/// An input whose first non-white-space character is a pipe is rejected:
/// the pipe then stands as the first token of the first attribute.
pub proof fn lemma_leading_pipe_rejected(s: Seq<char>, p: int)
    requires
        0 <= p < s.len(),
        s[p] == '|',
        forall|q: int| 0 <= q < p ==> is_ws(#[trigger] s[q]),
    ensures
        split_spec(s) is None,
{
    lemma_leading_pipe_scan(s, 0, p, Seq::empty());
}

} // verus!
