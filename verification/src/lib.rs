//! An attribute-splitting lexer: a raw comma-separated argument list, as it
//! would appear inside a macro invocation, is split into its top-level
//! comma-delimited attributes.  Commas nested inside balanced brackets
//! (`()`, `[]`, `{}`, `<>`) or inside quoted strings (with `\`-escape
//! handling) never split, and a pipe is accepted only where closure syntax
//! could begin.  On top of the lexer sit three small code-generating
//! builders that assemble error-reporting expressions from the attributes.

pub mod laws;
pub mod model;
pub mod scanner;

use vstd::prelude::*;
use vstd::string::{StrSliceExecFns, StringExecFns};

use crate::model::{
    closing_of, lemma_scan_quote, lemma_scan_region, lemma_skip_compose, lemma_skip_quote_ge,
    lemma_skip_region_ge, scan_all, scan_spans, skip_quote, skip_region, split_spec, trim,
};
use crate::scanner::Scanner;

verus! {

/// The ways a scan can fail.  The scan itself fails only on a misplaced
/// pipe; the builders additionally reject argument lists with too few
/// attributes.
#[derive(Clone, Copy, Debug, PartialEq, Eq, Structural)]
pub enum SplitError {
    MisplacedPipe,
    TooFewAttributes,
}

impl SplitError {
    /// A description of the failure, pointing at the expected closure form
    /// for a misplaced pipe.
    pub fn message(&self) -> (r: String)
        ensures
            *self == SplitError::MisplacedPipe ==> r@ == (
            "The pipe character is misplaced. Perhaps you intended to insert a 'closure' in which case it must be placed between curly brackets. E.g. {|n| n + 3}"@
            ),
            *self == SplitError::TooFewAttributes ==> r@ == "Contains insufficient parameters"@,
    {
        match self {
            SplitError::MisplacedPipe => String::from_str(
                "The pipe character is misplaced. Perhaps you intended to insert a 'closure' in which case it must be placed between curly brackets. E.g. {|n| n + 3}",
            ),
            SplitError::TooFewAttributes => String::from_str("Contains insufficient parameters"),
        }
    }
}

/// Consumes the characters of a bracketed region, the scanner standing just
/// after the opening bracket and `exit` being the closing character owed.
/// Nested regions are consumed recursively; a `<` inside the region is
/// tolerated without opening a nested region, and an unterminated region is
/// consumed up to the end of the input.
pub fn process_pairs(scanner: &mut Scanner, exit: char)
    requires
        old(scanner).wf(),
    ensures
        final(scanner).wf(),
        final(scanner).char_string == old(scanner).char_string,
        final(scanner).length == old(scanner).length,
        final(scanner).mark == old(scanner).mark,
        final(scanner).attributes == old(scanner).attributes,
        final(scanner).index == skip_region(
            old(scanner).char_string@,
            old(scanner).index as int,
            seq![exit],
        ),
    decreases old(scanner).length - old(scanner).index,
{
    let ghost s = scanner.char_string@;
    let ghost cs0 = scanner.char_string;
    let ghost idx0 = scanner.index as int;
    let ghost mark0 = scanner.mark;
    let ghost attrs0 = scanner.attributes;
    loop
        invariant_except_break
            skip_region(s, idx0, seq![exit]) == skip_region(s, scanner.index as int, seq![exit]),
        invariant
            scanner.wf(),
            scanner.char_string == cs0,
            s == cs0@,
            scanner.length == s.len(),
            scanner.mark == mark0,
            scanner.attributes == attrs0,
            idx0 <= scanner.index,
            old(scanner).length == scanner.length,
            old(scanner).index as int == idx0,
        ensures
            scanner.wf(),
            scanner.char_string == cs0,
            scanner.mark == mark0,
            scanner.attributes == attrs0,
            scanner.index as int == skip_region(s, idx0, seq![exit]),
        decreases s.len() - scanner.index,
    {
        match scanner.next() {
            Some(next) => {
                let ghost p = scanner.index - 1;
                if next == '<' {
                    // tolerated: a less-than inside a region is no opener
                } else if let Some(cl) = closing_of(next) {
                    proof {
                        lemma_skip_compose(s, p + 1, seq![exit], cl);
                        lemma_skip_region_ge(s, p + 1, seq![cl]);
                    }
                    process_pairs(scanner, cl);
                } else if next == exit {
                    proof {
                        assert(seq![exit].drop_last().len() == 0);
                        assert(skip_region(s, p + 1, seq![exit].drop_last()) == p + 1);
                        assert(skip_region(s, p, seq![exit]) == p + 1);
                    }
                    break ;
                } else {
                    // ordinary character inside the region
                }
            },
            None => {
                break ;
            },
        }
    }
}

/// Consumes the characters of a quoted region, the scanner standing just
/// after the opening quote and `quote` being the quote character that
/// closes it.  An escaped quote never closes the region; an unterminated
/// region is consumed up to the end of the input.
pub fn process_quotes(scanner: &mut Scanner, quote: char)
    requires
        old(scanner).wf(),
    ensures
        final(scanner).wf(),
        final(scanner).char_string == old(scanner).char_string,
        final(scanner).length == old(scanner).length,
        final(scanner).mark == old(scanner).mark,
        final(scanner).attributes == old(scanner).attributes,
        final(scanner).index == skip_quote(
            old(scanner).char_string@,
            old(scanner).index as int,
            quote,
        ),
{
    let ghost s = scanner.char_string@;
    let ghost cs0 = scanner.char_string;
    let ghost idx0 = scanner.index as int;
    let ghost mark0 = scanner.mark;
    let ghost attrs0 = scanner.attributes;
    loop
        invariant_except_break
            skip_quote(s, idx0, quote) == skip_quote(s, scanner.index as int, quote),
        invariant
            scanner.wf(),
            scanner.char_string == cs0,
            s == cs0@,
            scanner.length == s.len(),
            scanner.mark == mark0,
            scanner.attributes == attrs0,
            idx0 <= scanner.index,
        ensures
            scanner.wf(),
            scanner.char_string == cs0,
            scanner.mark == mark0,
            scanner.attributes == attrs0,
            scanner.index as int == skip_quote(s, idx0, quote),
        decreases s.len() - scanner.index,
    {
        match scanner.next() {
            Some(next) => {
                let ghost p = scanner.index - 1;
                if next == quote && !scanner.is_escaped() {
                    proof {
                        assert(skip_quote(s, p, quote) == p + 1);
                    }
                    break ;
                }
            },
            None => {
                break ;
            },
        }
    }
}

/// Splits a character sequence into its top-level comma-delimited
/// attributes, each trimmed of surrounding white space.  Commas inside
/// bracketed or quoted regions never split; a trailing attribute without a
/// final comma is still captured.  Fails exactly when a pipe stands as the
/// first token of an attribute at top level.
pub fn analyse(char_string: Vec<char>) -> (r: Result<Vec<String>, SplitError>)
    ensures
        match r {
            Ok(v) => {
                &&& split_spec(char_string@) is Some
                &&& v@.len() == split_spec(char_string@).unwrap().len()
                &&& forall|k: int|
                    0 <= k < v@.len() ==> (#[trigger] v@[k])@ == split_spec(
                        char_string@,
                    ).unwrap()[k]
            },
            Err(e) => split_spec(char_string@) is None && e == SplitError::MisplacedPipe,
        },
{
    let ghost s = char_string@;
    let mut scanner = Scanner::new(char_string);
    let mut failed = false;
    loop
        invariant_except_break
            !failed,
            scan_all(
                s,
                scanner.index as int,
                scanner.mark as int,
                Seq::empty(),
                None,
                scanner.spans(),
            ) == scan_spans(s),
        invariant
            scanner.wf(),
            scanner.char_string@ == s,
            scanner.length == s.len(),
        ensures
            scanner.wf(),
            scanner.char_string@ == s,
            failed ==> scan_spans(s) is None,
            !failed ==> scanner.index == s.len(),
            !failed ==> scan_all(
                s,
                scanner.index as int,
                scanner.mark as int,
                Seq::empty(),
                None,
                scanner.spans(),
            ) == scan_spans(s),
        decreases s.len() - scanner.index,
    {
        let ghost mark_g = scanner.mark as int;
        let ghost spans_g = scanner.spans();
        match scanner.next() {
            Some(next) => {
                let ghost p = scanner.index - 1;
                if let Some(cl) = closing_of(next) {
                    proof {
                        lemma_scan_region(s, p + 1, mark_g, seq![cl], spans_g);
                        lemma_skip_region_ge(s, p + 1, seq![cl]);
                    }
                    process_pairs(&mut scanner, cl);
                } else if next == '\'' && !scanner.is_escaped() {
                    proof {
                        lemma_scan_quote(s, p + 1, mark_g, '\'', spans_g);
                        lemma_skip_quote_ge(s, p + 1, '\'');
                    }
                    process_quotes(&mut scanner, '\'');
                } else if next == '"' && !scanner.is_escaped() {
                    proof {
                        lemma_scan_quote(s, p + 1, mark_g, '"', spans_g);
                        lemma_skip_quote_ge(s, p + 1, '"');
                    }
                    process_quotes(&mut scanner, '"');
                } else if next == '|' {
                    if !scanner.is_pipe_valid() {
                        proof {
                            assert(scan_all(s, p, mark_g, Seq::empty(), None, spans_g) is None);
                        }
                        failed = true;
                        break ;
                    }
                } else if next == ',' {
                    scanner.save_attribute(1);
                } else {
                    // ordinary character: stays in the pending attribute
                }
            },
            None => {
                break ;
            },
        }
    }
    if failed {
        return Err(SplitError::MisplacedPipe);
    }
    scanner.save_attribute(0);
    let v = scanner.get_string_attributes();
    proof {
        assert(scan_spans(s) == Some(scanner.spans()));
        assert forall|k: int| 0 <= k < v@.len() implies (#[trigger] v@[k])@ == split_spec(
            s,
        ).unwrap()[k] by {
            assert(v@[k]@ == trim(s.subrange(scanner.spans()[k].0, scanner.spans()[k].1)));
        }
    }
    Ok(v)
}

/// The characters of a string, in order, as a vector.
fn to_char_vec(text: &str) -> (r: Vec<char>)
    ensures
        r@ == text@,
{
    let n = text.unicode_len();
    let mut v: Vec<char> = Vec::new();
    let mut i: usize = 0;
    while i < n
        invariant
            n == text@.len(),
            i <= n,
            v@ == text@.subrange(0, i as int),
        decreases n - i,
    {
        let c = text.get_char(i);
        v.push(c);
        i += 1;
        proof {
            assert(v@ =~= text@.subrange(0, i as int));
        }
    }
    proof {
        assert(v@ =~= text@);
    }
    v
}

/// The views of a sequence of strings.
pub open spec fn views_of(v: Seq<String>) -> Seq<Seq<char>> {
    Seq::new(v.len(), |k: int| v[k]@)
}

/// The attributes from position `i` onward, joined with a comma and a
/// space between neighbours.
pub open spec fn join_comma(vs: Seq<Seq<char>>, i: int) -> Seq<char>
    decreases vs.len() - i,
{
    if i < 0 || i >= vs.len() {
        Seq::empty()
    } else if i == vs.len() - 1 {
        vs[i]
    } else {
        vs[i] + ", "@ + join_comma(vs, i + 1)
    }
}

/// Joins the attributes from position `from` onward with `", "`.
fn join_from(v: &Vec<String>, from: usize) -> (r: String)
    requires
        from <= v@.len(),
    ensures
        r@ == join_comma(views_of(v@), from as int),
{
    let mut r = String::new();
    let mut i = v.len();
    while i > from
        invariant
            from <= i <= v@.len(),
            r@ == join_comma(views_of(v@), i as int),
        decreases i - from,
    {
        i = i - 1;
        let piece = &v[i];
        let mut t = String::from_str(piece.as_str());
        if i + 1 < v.len() {
            t.append(", ");
        }
        t.append(r.as_str());
        proof {
            if i + 1 < v@.len() {
                assert(t@ =~= views_of(v@)[i as int] + ", "@ + join_comma(
                    views_of(v@),
                    i + 1,
                ));
            } else {
                assert(t@ =~= views_of(v@)[i as int]);
            }
        }
        r = t;
    }
    r
}

/// The expression the `convert` builder generates: the checked expression
/// `first` is given a `report` closure that wraps any `Error`-implementing
/// cause into a nuhound error built from the `format!` arguments `msg`.
pub open spec fn convert_out(first: Seq<char>, msg: Seq<char>) -> Seq<char> {
    "\n    "@ + first
        + ".report(|reason| {\n        let cause: &dyn ::std::error::Error = &reason;\n        #[cfg(not(feature = \"disclose\"))]\n        let inform = format!("@
        + msg
        + ");\n        #[cfg(feature = \"disclose\")]\n        let inform = format!(\"{0}:{1}:{2}: {3}\", file!(), line!(), column!(), format!("@
        + msg + "));\n        ::nuhound::Nuhound::link(inform, cause)\n    })\n    "@
}

/// The expression the `examine` builder generates: as `convert_out`, but
/// the cause is already a nuhound error and is chained directly.
pub open spec fn examine_out(first: Seq<char>, msg: Seq<char>) -> Seq<char> {
    "\n    "@ + first
        + ".report(|cause| {\n        #[cfg(not(feature = \"disclose\"))]\n        let inform = format!("@
        + msg
        + ");\n        #[cfg(feature = \"disclose\")]\n        let inform = format!(\"{0}:{1}:{2}: {3}\", file!(), line!(), column!(), format!("@
        + msg + "));\n        ::nuhound::Nuhound::new(inform).caused_by(cause)\n    })\n    "@
}

/// The expression the `custom` builder generates: an `Err` holding a fresh
/// nuhound error built from the `format!` arguments `msg`.
pub open spec fn custom_out(msg: Seq<char>) -> Seq<char> {
    "\n    {\n        #[cfg(not(feature = \"disclose\"))]\n        let inform = format!("@ + msg
        + ");\n        #[cfg(feature = \"disclose\")]\n        let inform = format!(\"{0}:{1}:{2}: {3}\", file!(), line!(), column!(), format!("@
        + msg + "));\n        ::std::result::Result::Err(::nuhound::Nuhound::new(inform))\n    }\n    "@
}

/// Builds the code that converts any `Error`-implementing failure of the
/// first attribute into a nuhound error whose message is formatted from the
/// remaining attributes.  Needs at least two attributes.
pub fn convert_builder(item: String) -> (r: Result<String, SplitError>)
    ensures
        match r {
            Ok(out) => {
                &&& split_spec(item@) is Some
                &&& split_spec(item@).unwrap().len() >= 2
                &&& out@ == convert_out(
                    split_spec(item@).unwrap()[0],
                    join_comma(split_spec(item@).unwrap(), 1),
                )
            },
            Err(e) => {
                ||| (e == SplitError::MisplacedPipe && split_spec(item@) is None)
                ||| (e == SplitError::TooFewAttributes && split_spec(item@) is Some && split_spec(
                    item@,
                ).unwrap().len() < 2)
            },
        },
{
    let chars = to_char_vec(item.as_str());
    let attributes = match analyse(chars) {
        Ok(a) => a,
        Err(e) => {
            return Err(e);
        },
    };
    proof {
        assert(views_of(attributes@) =~= split_spec(item@).unwrap());
    }
    if attributes.len() < 2 {
        return Err(SplitError::TooFewAttributes);
    }
    let message = join_from(&attributes, 1);
    let first = &attributes[0];
    let mut out = String::from_str("\n    ");
    out.append(first.as_str());
    out.append(
        ".report(|reason| {\n        let cause: &dyn ::std::error::Error = &reason;\n        #[cfg(not(feature = \"disclose\"))]\n        let inform = format!(",
    );
    out.append(message.as_str());
    out.append(
        ");\n        #[cfg(feature = \"disclose\")]\n        let inform = format!(\"{0}:{1}:{2}: {3}\", file!(), line!(), column!(), format!(",
    );
    out.append(message.as_str());
    out.append("));\n        ::nuhound::Nuhound::link(inform, cause)\n    })\n    ");
    proof {
        assert(out@ =~= convert_out(
            split_spec(item@).unwrap()[0],
            join_comma(split_spec(item@).unwrap(), 1),
        ));
    }
    Ok(out)
}

/// Builds the code that chains a nuhound failure of the first attribute
/// into a new nuhound error whose message is formatted from the remaining
/// attributes.  Needs at least two attributes.
pub fn examine_builder(item: String) -> (r: Result<String, SplitError>)
    ensures
        match r {
            Ok(out) => {
                &&& split_spec(item@) is Some
                &&& split_spec(item@).unwrap().len() >= 2
                &&& out@ == examine_out(
                    split_spec(item@).unwrap()[0],
                    join_comma(split_spec(item@).unwrap(), 1),
                )
            },
            Err(e) => {
                ||| (e == SplitError::MisplacedPipe && split_spec(item@) is None)
                ||| (e == SplitError::TooFewAttributes && split_spec(item@) is Some && split_spec(
                    item@,
                ).unwrap().len() < 2)
            },
        },
{
    let chars = to_char_vec(item.as_str());
    let attributes = match analyse(chars) {
        Ok(a) => a,
        Err(e) => {
            return Err(e);
        },
    };
    proof {
        assert(views_of(attributes@) =~= split_spec(item@).unwrap());
    }
    if attributes.len() < 2 {
        return Err(SplitError::TooFewAttributes);
    }
    let message = join_from(&attributes, 1);
    let first = &attributes[0];
    let mut out = String::from_str("\n    ");
    out.append(first.as_str());
    out.append(
        ".report(|cause| {\n        #[cfg(not(feature = \"disclose\"))]\n        let inform = format!(",
    );
    out.append(message.as_str());
    out.append(
        ");\n        #[cfg(feature = \"disclose\")]\n        let inform = format!(\"{0}:{1}:{2}: {3}\", file!(), line!(), column!(), format!(",
    );
    out.append(message.as_str());
    out.append("));\n        ::nuhound::Nuhound::new(inform).caused_by(cause)\n    })\n    ");
    proof {
        assert(out@ =~= examine_out(
            split_spec(item@).unwrap()[0],
            join_comma(split_spec(item@).unwrap(), 1),
        ));
    }
    Ok(out)
}

/// Builds the code that creates a fresh nuhound error whose message is
/// formatted from all the attributes.  Needs at least one attribute.
pub fn custom_builder(item: String) -> (r: Result<String, SplitError>)
    ensures
        match r {
            Ok(out) => {
                &&& split_spec(item@) is Some
                &&& split_spec(item@).unwrap().len() >= 1
                &&& out@ == custom_out(join_comma(split_spec(item@).unwrap(), 0))
            },
            Err(e) => {
                ||| (e == SplitError::MisplacedPipe && split_spec(item@) is None)
                ||| (e == SplitError::TooFewAttributes && split_spec(item@) is Some && split_spec(
                    item@,
                ).unwrap().len() < 1)
            },
        },
{
    let chars = to_char_vec(item.as_str());
    let attributes = match analyse(chars) {
        Ok(a) => a,
        Err(e) => {
            return Err(e);
        },
    };
    proof {
        assert(views_of(attributes@) =~= split_spec(item@).unwrap());
    }
    if attributes.len() < 1 {
        return Err(SplitError::TooFewAttributes);
    }
    let message = join_from(&attributes, 0);
    let mut out = String::from_str(
        "\n    {\n        #[cfg(not(feature = \"disclose\"))]\n        let inform = format!(",
    );
    out.append(message.as_str());
    out.append(
        ");\n        #[cfg(feature = \"disclose\")]\n        let inform = format!(\"{0}:{1}:{2}: {3}\", file!(), line!(), column!(), format!(",
    );
    out.append(message.as_str());
    out.append("));\n        ::std::result::Result::Err(::nuhound::Nuhound::new(inform))\n    }\n    ");
    proof {
        assert(out@ =~= custom_out(join_comma(split_spec(item@).unwrap(), 0)));
    }
    Ok(out)
}

} // verus!
