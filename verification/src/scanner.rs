//! A cursor over a fixed character sequence.
//!
//! The scanner owns the input characters, the cursor position, the mark
//! (start of the pending attribute) and the attribute spans recorded so
//! far.  It offers single-step advancement, lookback queries (escape and
//! pipe-placement checks), span recording, and materialization of the
//! recorded spans as trimmed strings.

use vstd::prelude::*;

use crate::model::{escaped_at, is_ws, is_ws_char, pipe_ok, trim, trim_from, trim_upto};

verus! {

/// A recorded attribute span: the half-open interval `[start, end)` of the
/// input.
pub struct Attribute {
    pub start: usize,
    pub end: usize,
}

/// The working state of one scan.
pub struct Scanner {
    pub char_string: Vec<char>,
    pub length: usize,
    pub index: usize,
    pub attributes: Vec<Attribute>,
    pub mark: usize,
}

/// Appends one character to a string.
///
/// Relies on `String::push`: the pushed character becomes the last
/// character of the string and the rest is unchanged.
#[verifier::external_body]
fn push_char(s: &mut String, c: char)
    ensures
        final(s)@ == old(s)@.push(c),
{
    s.push(c)
}

/// Proves where the first non-white-space index of a sequence lies, from
/// the facts an executable left-to-right search establishes.
proof fn lemma_trim_from_is(s: Seq<char>, t: int, i: int)
    requires
        0 <= i <= t <= s.len(),
        forall|k: int| i <= k < t ==> is_ws(#[trigger] s[k]),
        t == s.len() || !is_ws(s[t]),
    ensures
        trim_from(s, i) == t,
    decreases t - i,
{
    if i < t {
        lemma_trim_from_is(s, t, i + 1);
    }
}

/// Proves where the trailing white-space run of a sequence begins, from the
/// facts an executable right-to-left search establishes.
proof fn lemma_trim_upto_is(s: Seq<char>, t: int, j: int)
    requires
        0 <= t <= j <= s.len(),
        forall|k: int| t <= k < j ==> is_ws(#[trigger] s[k]),
        t == 0 || !is_ws(s[t - 1]),
    ensures
        trim_upto(s, j) == t,
    decreases j - t,
{
    if t < j {
        lemma_trim_upto_is(s, t, j - 1);
    }
}

impl Scanner {
    /// The scanner's structural invariant: the cached length matches the
    /// input, the mark never passes the cursor, the cursor never passes the
    /// end, and every recorded span is a well-formed interval inside the
    /// input.
    pub open spec fn wf(self) -> bool {
        &&& self.length == self.char_string@.len()
        &&& self.index <= self.length
        &&& self.mark <= self.index
        &&& forall|k: int|
            0 <= k < self.attributes@.len() ==> (#[trigger] self.attributes@[k]).start
                <= self.attributes@[k].end && self.attributes@[k].end <= self.length
    }

    /// The recorded spans as a sequence of integer intervals.
    pub open spec fn spans(self) -> Seq<(int, int)> {
        Seq::new(
            self.attributes@.len(),
            |k: int| (self.attributes@[k].start as int, self.attributes@[k].end as int),
        )
    }

    /// Creates a scanner over a character sequence, with the cursor and the
    /// mark at the start and no spans recorded.
    pub fn new(char_string: Vec<char>) -> (r: Scanner)
        ensures
            r.wf(),
            r.char_string@ == char_string@,
            r.length == char_string@.len(),
            r.index == 0,
            r.mark == 0,
            r.spans() == Seq::<(int, int)>::empty(),
    {
        let length = char_string.len();
        let r = Scanner { char_string, length, index: 0, attributes: Vec::new(), mark: 0 };
        proof {
            assert(r.spans() =~= Seq::<(int, int)>::empty());
        }
        r
    }

    /// Consumes and returns the character at the cursor, advancing the
    /// cursor by one; at the end of the input it returns `None` and leaves
    /// the scanner unchanged.
    pub fn next(&mut self) -> (r: Option<char>)
        requires
            old(self).wf(),
        ensures
            final(self).wf(),
            final(self).char_string == old(self).char_string,
            final(self).length == old(self).length,
            final(self).mark == old(self).mark,
            final(self).attributes == old(self).attributes,
            if old(self).index < old(self).length {
                r == Some(old(self).char_string@[old(self).index as int]) && final(self).index
                    == old(self).index + 1
            } else {
                r is None && final(self).index == old(self).index
            },
    {
        if self.index < self.length {
            self.index += 1;
            Some(self.char_string[self.index - 1])
        } else {
            None
        }
    }

    /// The character most recently returned by `next`, or `None` when
    /// nothing has been consumed yet or the input is exhausted.
    pub fn get_current(&self) -> (r: Option<char>)
        requires
            self.wf(),
        ensures
            r == if 1 <= self.index && self.index < self.length {
                Some(self.char_string@[self.index - 1])
            } else {
                Option::<char>::None
            },
    {
        if 1 <= self.index && self.index < self.length {
            Some(self.char_string[self.index - 1])
        } else {
            None
        }
    }

    /// Records the pending span, from the mark up to the cursor shortened
    /// by `rshorten` characters (1 to exclude a just-consumed comma, 0 at
    /// the end of the input), and moves the mark to the cursor.
    pub fn save_attribute(&mut self, rshorten: usize)
        requires
            old(self).wf(),
            old(self).mark + rshorten <= old(self).index,
        ensures
            final(self).wf(),
            final(self).char_string == old(self).char_string,
            final(self).length == old(self).length,
            final(self).index == old(self).index,
            final(self).mark == old(self).index,
            final(self).spans() == old(self).spans().push(
                (old(self).mark as int, old(self).index - rshorten),
            ),
    {
        let attribute = Attribute { start: self.mark, end: self.index - rshorten };
        self.mark = self.index;
        self.attributes.push(attribute);
        proof {
            assert(final(self).spans() =~= old(self).spans().push(
                (old(self).mark as int, old(self).index - rshorten),
            ));
        }
    }

    /// Materializes each recorded span, in order, as the trimmed string of
    /// its characters.
    pub fn get_string_attributes(&self) -> (r: Vec<String>)
        requires
            self.wf(),
        ensures
            r@.len() == self.spans().len(),
            forall|k: int|
                0 <= k < r@.len() ==> (#[trigger] r@[k])@ == trim(
                    self.char_string@.subrange(self.spans()[k].0, self.spans()[k].1),
                ),
    {
        let mut output: Vec<String> = Vec::new();
        let mut a: usize = 0;
        while a < self.attributes.len()
            invariant
                self.wf(),
                a <= self.attributes@.len(),
                output@.len() == a,
                forall|k: int|
                    0 <= k < a ==> (#[trigger] output@[k])@ == trim(
                        self.char_string@.subrange(self.spans()[k].0, self.spans()[k].1),
                    ),
            decreases self.attributes@.len() - a,
        {
            let start = self.attributes[a].start;
            let end = self.attributes[a].end;
            let mut lo = start;
            while lo < end && is_ws_char(self.char_string[lo])
                invariant
                    self.wf(),
                    start <= lo <= end,
                    end <= self.length,
                    forall|k: int| start <= k < lo ==> is_ws(#[trigger] self.char_string@[k]),
                decreases end - lo,
            {
                lo += 1;
            }
            let mut hi = end;
            while hi > lo && is_ws_char(self.char_string[hi - 1])
                invariant
                    self.wf(),
                    lo <= hi <= end,
                    end <= self.length,
                    forall|k: int| hi <= k < end ==> is_ws(#[trigger] self.char_string@[k]),
                decreases hi - lo,
            {
                hi -= 1;
            }
            let ghost span = self.char_string@.subrange(start as int, end as int);
            proof {
                if lo == end {
                    lemma_trim_from_is(span, span.len() as int, 0);
                    lemma_trim_upto_is(span, 0, span.len() as int);
                } else {
                    lemma_trim_from_is(span, lo - start, 0);
                    lemma_trim_upto_is(span, hi - start, span.len() as int);
                }
                assert(trim(span) =~= self.char_string@.subrange(lo as int, hi as int));
            }
            let mut attr = String::new();
            let mut p = lo;
            while p < hi
                invariant
                    self.wf(),
                    lo <= p <= hi <= self.length,
                    attr@ == self.char_string@.subrange(lo as int, p as int),
                decreases hi - p,
            {
                push_char(&mut attr, self.char_string[p]);
                p += 1;
                proof {
                    assert(attr@ =~= self.char_string@.subrange(lo as int, p as int));
                }
            }
            proof {
                assert(attr@ == trim(
                    self.char_string@.subrange(self.spans()[a as int].0, self.spans()[a as int].1),
                ));
            }
            output.push(attr);
            a += 1;
        }
        output
    }

    /// Reports whether a just-consumed pipe character is acceptably placed:
    /// true when some non-white-space character stands between the mark and
    /// the pipe, so the pipe is not the first token of the pending
    /// attribute.
    pub fn is_pipe_valid(&self) -> (r: bool)
        requires
            self.wf(),
            self.mark < self.index,
        ensures
            r == pipe_ok(self.char_string@, self.mark as int, self.index - 1),
    {
        let pipe_pos = self.index - 1;
        let mut p = self.mark;
        while p < pipe_pos
            invariant
                self.wf(),
                self.mark <= p <= pipe_pos,
                pipe_pos == self.index - 1,
                forall|q: int| self.mark <= q < p ==> is_ws(#[trigger] self.char_string@[q]),
            decreases pipe_pos - p,
        {
            if !is_ws_char(self.char_string[p]) {
                return true;
            }
            p += 1;
        }
        false
    }

    /// Reports whether the character most recently consumed is escaped,
    /// that is, immediately preceded by a backslash.
    pub fn is_escaped(&self) -> (r: bool)
        requires
            self.wf(),
        ensures
            r == escaped_at(self.char_string@, self.index - 1),
    {
        if self.index < 2 {
            false
        } else {
            self.char_string[self.index - 2] == '\\'
        }
    }
}

} // verus!
