use crate::context::Context;
use crate::cursor::Cursor;
use crate::error::{InvalidValue, ParseError, ParseErrorView, UnexpectedEnd};
use crate::indent::indent_char;
use crate::lines::{
    block_len, block_lines, first_line, indent_width, is_blank, lemma_first_line,
    lemma_indent_prefix, line_step, str_indent_width, trim_blank_end,
};
use crate::scan::{
    ident_char, is_ident_char, lemma_run_len, lemma_run_len_skip, lemma_run_len_unique,
    lemma_run_of, other_than, run_len, spec_is_ident_char,
};
use crate::text::{lemma_byte_len_chars, str_len, str_split, str_views, string_views};
use vstd::prelude::*;
use vstd::string::*;

verus! {

pub type ParseResult<T> = Result<T, ParseError>;

/// What is wrong where a parse fails.
pub enum Fault {
    /// The input ended where more was required.
    UnexpectedEnd,
    /// Something else stands there than what the message asks for.
    InvalidValue(Seq<char>),
}

impl Fault {
    /// The error that reports this fault at byte offset `pos`.
    pub open spec fn at(self, pos: nat) -> ParseErrorView {
        match self {
            Fault::UnexpectedEnd => ParseErrorView::UnexpectedEnd { pos },
            Fault::InvalidValue(message) => ParseErrorView::InvalidValue { pos, message },
        }
    }
}

/// How a parse of a text ends: with a value or with a fault, in both cases after a number
/// of characters of the text. A parse that fails reports the fault at the place where it
/// stopped reading.
pub enum Outcome<T> {
    Done(T, nat),
    Failed(Fault, nat),
}

impl<T> Outcome<T> {
    /// The number of characters read.
    pub open spec fn used(self) -> nat {
        match self {
            Outcome::Done(_, used) => used,
            Outcome::Failed(_, used) => used,
        }
    }

    /// The same outcome of a parse that began `by` characters earlier.
    pub open spec fn shifted(self, by: nat) -> Outcome<T> {
        match self {
            Outcome::Done(value, used) => Outcome::Done(value, used + by),
            Outcome::Failed(fault, used) => Outcome::Failed(fault, used + by),
        }
    }
}

/// The outcome of reading a list of which `items` were read in `by` characters and `rest`
/// tells how the reading went on.
pub open spec fn continued<T>(items: Seq<T>, by: nat, rest: Outcome<Seq<T>>) -> Outcome<Seq<T>> {
    match rest {
        Outcome::Done(more, used) => Outcome::Done(items + more, used + by),
        Outcome::Failed(fault, used) => Outcome::Failed(fault, used + by),
    }
}

/// `r` reports `fault` at the place where `after` stands, `used` characters after `before`.
pub open spec fn fails_with<'a, T>(
    r: ParseResult<T>,
    fault: Fault,
    used: nat,
    before: &Cursor<'a>,
    after: &Cursor<'a>,
) -> bool {
    &&& r matches Err(e) && e@ == fault.at(after.pos as nat)
    &&& before.steps_to(after, used as int)
}

/// An identifier at the start of `s`: the longest run of letters, digits and underscores,
/// which has to hold one character at least.
pub open spec fn spec_identifier(s: Seq<char>) -> Outcome<Seq<char>> {
    if s.len() == 0 {
        Outcome::Failed(Fault::UnexpectedEnd, 0)
    } else if !spec_is_ident_char(s[0]) {
        Outcome::Failed(Fault::InvalidValue("Invalid identifier start: "@ + seq![s[0]]), 0)
    } else {
        Outcome::Done(s.take(run_len(s, ident_char()) as int), run_len(s, ident_char()))
    }
}

/// Reads an identifier. Where there is none, the cursor stays where it is.
pub fn identifier<'a>(input: &mut Cursor<'a>, _ctx: &mut Context) -> (r: ParseResult<String>)
    requires
        old(input).wf(),
    ensures
        *final(_ctx) == *old(_ctx),
        match spec_identifier(old(input).remaining()) {
            Outcome::Done(name, used) => r matches Ok(s) && s@ == name && old(input).steps_to(
                final(input),
                used as int,
            ),
            Outcome::Failed(fault, used) => fails_with(r, fault, used, old(input), final(input)),
        },
{
    let start_pos: usize = input.pos;
    proof {
        input.lemma_step(input, 0);
    }
    match input.peek() {
        None => {
            return Err(ParseError::unexpected_end(start_pos));
        },
        Some(c) => {
            if !is_ident_char(c) {
                let mut probe = Cursor { pos: input.pos, input: input.input };
                let first = probe.take_n(1);
                let mut message = String::from_str("Invalid identifier start: ");
                message.append(first);
                proof {
                    assert(first@ =~= seq![c]);
                }
                return Err(ParseError::invalid_value(start_pos, message));
            }
        },
    }
    let f = |c: char| -> (r: bool)
        ensures
            r == spec_is_ident_char(c),
        { is_ident_char(c) };
    let name = input.take_while(f);
    proof {
        lemma_run_of(f, ident_char(), old(input).remaining(), name@.len() as int);
    }
    Ok(String::from_str(name))
}

/// Reads the rest of the line at the position, without its line feed, and moves over
/// the line feed if there is one. It does not fail: at the end of the input it reads an
/// empty line.
pub fn next_line<'a>(input: &mut Cursor<'a>, _ctx: &mut Context) -> (r: ParseResult<String>)
    requires
        old(input).wf(),
    ensures
        *final(_ctx) == *old(_ctx),
        r matches Ok(line) && line@ == first_line(old(input).remaining()),
        old(input).steps_to(final(input), line_step(old(input).remaining()) as int),
{
    let ghost rem = input.remaining();
    let ghost start = *input;
    let f = |c: char| -> (r: bool)
        ensures
            r == (c == '\n'),
        { c == '\n' };
    let line = input.take_until(f);
    let ghost mid = *input;
    proof {
        let k = line@.len() as int;
        assert forall|i: int| 0 <= i < k implies other_than('\n')(#[trigger] rem[i]) by {
            assert(call_ensures(f, (rem[i],), false));
        }
        lemma_run_len_unique(rem, other_than('\n'), k);
        lemma_first_line(rem);
    }
    match input.peek() {
        Some(_) => {
            input.skip_n(1);
            proof {
                start.lemma_steps_trans(&mid, input, line@.len() as int, 1);
            }
        },
        None => {},
    }
    Ok(String::from_str(line))
}

/// The least indentation among the lines of `lines` that are not empty, if there is
/// such a line.
pub open spec fn min_indent_opt(lines: Seq<Seq<char>>) -> Option<nat>
    decreases lines.len(),
{
    if lines.len() == 0 {
        None
    } else {
        let before = min_indent_opt(lines.drop_last());
        let line = lines.last();
        if line.len() == 0 {
            before
        } else {
            match before {
                None => Some(indent_width(line)),
                Some(m) => Some(
                    if indent_width(line) < m {
                        indent_width(line)
                    } else {
                        m
                    },
                ),
            }
        }
    }
}

/// The least indentation among the lines of `lines` that are not empty, and zero if all
/// are empty.
pub open spec fn min_indent(lines: Seq<Seq<char>>) -> nat {
    match min_indent_opt(lines) {
        Some(m) => m,
        None => 0,
    }
}

/// `lines` with the first `margin` characters taken off each line that is not empty.
pub open spec fn strip_margin(lines: Seq<Seq<char>>, margin: nat) -> Seq<Seq<char>> {
    lines.map_values(
        |line: Seq<char>|
            if line.len() == 0 {
                line
            } else {
                line.skip(margin as int)
            },
    )
}

/// `lines` moved to the left until the least indented line that is not empty starts at
/// the margin.
pub open spec fn normalize(lines: Seq<Seq<char>>) -> Seq<Seq<char>> {
    strip_margin(lines, min_indent(lines))
}

/// The least indentation is that of one of the lines that are not empty, and no such
/// line is indented less.
pub proof fn lemma_min_indent(lines: Seq<Seq<char>>)
    ensures
        match min_indent_opt(lines) {
            Some(m) => {
                &&& exists|i: int|
                    0 <= i < lines.len() && lines[i].len() > 0 && indent_width(#[trigger] lines[i])
                        == m
                &&& forall|i: int|
                    0 <= i < lines.len() && lines[i].len() > 0 ==> m <= indent_width(
                        #[trigger] lines[i],
                    )
            },
            None => forall|i: int| 0 <= i < lines.len() ==> (#[trigger] lines[i]).len() == 0,
        },
    decreases lines.len(),
{
    if lines.len() > 0 {
        let front = lines.drop_last();
        lemma_min_indent(front);
        let n = lines.len() - 1;
        assert forall|i: int| 0 <= i < n implies front[i] == lines[i] by {}
        match min_indent_opt(front) {
            Some(m) => {
                let i = choose|i: int|
                    0 <= i < front.len() && front[i].len() > 0 && indent_width(#[trigger] front[i])
                        == m;
                assert(lines[i] == front[i]);
                if lines.last().len() > 0 && indent_width(lines.last()) < m {
                    assert(indent_width(lines[n]) == min_indent_opt(lines)->0);
                } else {
                    assert(indent_width(lines[i]) == min_indent_opt(lines)->0);
                }
            },
            None => {
                if lines.last().len() > 0 {
                    assert(indent_width(lines[n]) == min_indent_opt(lines)->0);
                }
            },
        }
    }
}

/// Moving lines to the left margin changes neither their number nor which of them are
/// empty, and takes the same indentation off every line that is not empty: the least
/// indentation among them.
pub proof fn lemma_normalize(lines: Seq<Seq<char>>)
    requires
        forall|i: int|
            0 <= i < lines.len() ==> (#[trigger] lines[i]).len() == 0 || !is_blank(lines[i]),
    ensures
        normalize(lines).len() == lines.len(),
        forall|i: int|
            0 <= i < lines.len() ==> ((#[trigger] normalize(lines)[i]).len() == 0) == (
            lines[i].len() == 0),
        forall|i: int|
            0 <= i < lines.len() && lines[i].len() > 0 ==> indent_width(
                #[trigger] normalize(lines)[i],
            ) == indent_width(lines[i]) - min_indent(lines),
        min_indent(normalize(lines)) == 0,
{
    lemma_min_indent(lines);
    let moved = normalize(lines);
    assert forall|i: int| 0 <= i < lines.len() implies ((#[trigger] moved[i]).len() == 0) == (
    lines[i].len() == 0) && (lines[i].len() > 0 ==> indent_width(moved[i]) == indent_width(
        lines[i],
    ) - min_indent(lines)) by {
        let line = lines[i];
        if line.len() > 0 {
            lemma_run_len(line, indent_char());
            assert(min_indent(lines) <= indent_width(line));
            lemma_run_len_skip(line, indent_char(), min_indent(lines) as int);
        }
    }
    lemma_min_indent(moved);
    if min_indent_opt(lines) is Some {
        let i = choose|i: int|
            0 <= i < lines.len() && lines[i].len() > 0 && indent_width(#[trigger] lines[i])
                == min_indent(lines);
        assert(moved[i].len() > 0 && indent_width(moved[i]) == 0);
        assert(min_indent_opt(moved) is Some);
    } else {
        assert forall|i: int| 0 <= i < moved.len() implies (#[trigger] moved[i]).len() == 0 by {
            assert(lines[i].len() == 0);
        }
        lemma_min_indent_none(moved);
    }
}

/// Lines that are all empty have no least indentation.
pub proof fn lemma_min_indent_none(lines: Seq<Seq<char>>)
    requires
        forall|i: int| 0 <= i < lines.len() ==> (#[trigger] lines[i]).len() == 0,
    ensures
        min_indent_opt(lines) is None,
    decreases lines.len(),
{
    if lines.len() > 0 {
        let front = lines.drop_last();
        assert forall|i: int| 0 <= i < front.len() implies (#[trigger] front[i]).len() == 0 by {
            assert(front[i] == lines[i]);
        }
        lemma_min_indent_none(front);
    }
}

/// The lines of the paragraph at the start of `s`: the block of lines that are blank or
/// indented by more than `baseline` characters, without the blank lines at its end, moved
/// to the left margin.
pub open spec fn paragraph_lines(s: Seq<char>, baseline: nat) -> Seq<Seq<char>> {
    normalize(trim_blank_end(block_lines(s, baseline)))
}

/// Reads the block of lines at the position that are blank or indented by more than the
/// baseline of `ctx`, and moves its lines to the left margin: the least indentation among
/// the lines that are not blank is taken off each of them.
pub fn indented_paragraph<'a>(input: &mut Cursor<'a>, ctx: &mut Context) -> (r: ParseResult<
    Vec<String>,
>)
    requires
        old(input).wf(),
    ensures
        *final(ctx) == *old(ctx),
        r matches Ok(lines) && string_views(lines@) == paragraph_lines(
            old(input).remaining(),
            old(ctx).indent as nat,
        ),
        old(input).steps_to(
            final(input),
            block_len(old(input).remaining(), old(ctx).indent as nat) as int,
        ),
{
    let lines = input.take_until_dedent(ctx.indent);
    let ghost texts = str_views(lines@);
    let mut least: Option<usize> = None;
    let mut i: usize = 0;
    while i < lines.len()
        invariant
            0 <= i <= lines.len(),
            texts == str_views(lines@),
            match least {
                Some(m) => min_indent_opt(texts.take(i as int)) == Some(m as nat),
                None => min_indent_opt(texts.take(i as int)) is None,
            },
        decreases lines.len() - i,
    {
        let line: &str = lines[i];
        proof {
            assert(texts.take(i + 1).drop_last() =~= texts.take(i as int));
            assert(texts.take(i + 1).last() == line@);
            lemma_byte_len_chars(line@);
            if line@.len() == 0 {
                assert(line@ =~= Seq::<char>::empty());
            }
        }
        if str_len(line) != 0 {
            let width: usize = str_indent_width(line);
            least = match least {
                None => Some(width),
                Some(m) => Some(
                    if width < m {
                        width
                    } else {
                        m
                    },
                ),
            };
        }
        i = i + 1;
    }
    proof {
        assert(texts.take(lines.len() as int) =~= texts);
        lemma_min_indent(texts);
    }
    let margin: usize = match least {
        Some(m) => m,
        None => 0,
    };
    let mut out: Vec<String> = Vec::new();
    let mut j: usize = 0;
    while j < lines.len()
        invariant
            0 <= j <= lines.len(),
            texts == str_views(lines@),
            margin == min_indent(texts),
            forall|i: int|
                0 <= i < texts.len() && texts[i].len() > 0 ==> margin <= indent_width(
                    #[trigger] texts[i],
                ),
            string_views(out@) == strip_margin(texts, margin as nat).take(j as int),
        decreases lines.len() - j,
    {
        let line: &str = lines[j];
        let ghost seen = string_views(out@);
        proof {
            assert(texts[j as int] == line@);
            lemma_byte_len_chars(line@);
            if line@.len() == 0 {
                assert(line@ =~= Seq::<char>::empty());
            }
        }
        if str_len(line) == 0 {
            out.push(String::from_str(line));
        } else {
            proof {
                lemma_indent_prefix(line@, margin as int);
            }
            let (_, body) = str_split(line, margin, Ghost(margin as int));
            out.push(String::from_str(body));
        }
        proof {
            assert(string_views(out@) =~= seen.push(out@.last()@));
            assert(strip_margin(texts, margin as nat).take(j + 1) =~= strip_margin(
                texts,
                margin as nat,
            ).take(j as int).push(strip_margin(texts, margin as nat)[j as int]));
        }
        j = j + 1;
    }
    proof {
        assert(strip_margin(texts, margin as nat).take(lines.len() as int) =~= strip_margin(
            texts,
            margin as nat,
        ));
    }
    Ok(out)
}

} // verus!
