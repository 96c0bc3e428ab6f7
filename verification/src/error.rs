use crate::lines::{after_line, first_line, lemma_first_line, line_step, str_line};
use crate::scan::line_len;
use crate::text::{byte_len, lemma_byte_len_bounds, spaces, str_len, str_split};
use vstd::prelude::*;
use vstd::string::*;

verus! {

/// The input ended where more was required.
#[derive(PartialEq, Debug)]
pub struct UnexpectedEnd {
    /// Byte offset at which the input ended.
    pub pos: usize,
}

/// A construct is malformed.
#[derive(PartialEq, Debug)]
pub struct InvalidValue {
    /// Byte offset of the malformed construct.
    pub pos: usize,
    /// What was expected there.
    pub message: String,
}

/// Why a parse failed, and where.
#[derive(PartialEq, Debug)]
pub enum ParseError {
    UnexpectedEnd(UnexpectedEnd),
    InvalidValue(InvalidValue),
}

/// What a `ParseError` holds, as plain values.
pub enum ParseErrorView {
    UnexpectedEnd { pos: nat },
    InvalidValue { pos: nat, message: Seq<char> },
}

impl ParseErrorView {
    /// Byte offset of the failure.
    pub open spec fn pos(self) -> nat {
        match self {
            ParseErrorView::UnexpectedEnd { pos } => pos,
            ParseErrorView::InvalidValue { pos, .. } => pos,
        }
    }

    /// The same failure, `by` bytes further on.
    pub open spec fn shifted(self, by: nat) -> ParseErrorView {
        match self {
            ParseErrorView::UnexpectedEnd { pos } => ParseErrorView::UnexpectedEnd {
                pos: pos + by,
            },
            ParseErrorView::InvalidValue { pos, message } => ParseErrorView::InvalidValue {
                pos: pos + by,
                message,
            },
        }
    }
}

impl View for ParseError {
    type V = ParseErrorView;

    open spec fn view(&self) -> ParseErrorView {
        match *self {
            ParseError::UnexpectedEnd(e) => ParseErrorView::UnexpectedEnd { pos: e.pos as nat },
            ParseError::InvalidValue(e) => ParseErrorView::InvalidValue {
                pos: e.pos as nat,
                message: e.message@,
            },
        }
    }
}

/// The character that stands for the digit `d`.
pub open spec fn digit_char(d: nat) -> char {
    if d == 0 {
        '0'
    } else if d == 1 {
        '1'
    } else if d == 2 {
        '2'
    } else if d == 3 {
        '3'
    } else if d == 4 {
        '4'
    } else if d == 5 {
        '5'
    } else if d == 6 {
        '6'
    } else if d == 7 {
        '7'
    } else if d == 8 {
        '8'
    } else {
        '9'
    }
}

/// `n` written in decimal, without leading zeros.
pub open spec fn decimal(n: nat) -> Seq<char>
    decreases n,
{
    if n < 10 {
        seq![digit_char(n)]
    } else {
        decimal(n / 10).push(digit_char(n % 10))
    }
}

/// The text of an error: `Unexpected end at P`, or `Invalid value at P: M`.
pub open spec fn spec_format(e: ParseErrorView) -> Seq<char> {
    match e {
        ParseErrorView::UnexpectedEnd { pos } => "Unexpected end at "@ + decimal(pos),
        ParseErrorView::InvalidValue { pos, message } => "Invalid value at "@ + decimal(pos)
            + ": "@ + message,
    }
}

fn digit_str(d: usize) -> (s: &'static str)
    requires
        d < 10,
    ensures
        s@ == seq![digit_char(d as nat)],
{
    proof {
        reveal_strlit("0");
        reveal_strlit("1");
        reveal_strlit("2");
        reveal_strlit("3");
        reveal_strlit("4");
        reveal_strlit("5");
        reveal_strlit("6");
        reveal_strlit("7");
        reveal_strlit("8");
        reveal_strlit("9");
    }
    let s = if d == 0 {
        "0"
    } else if d == 1 {
        "1"
    } else if d == 2 {
        "2"
    } else if d == 3 {
        "3"
    } else if d == 4 {
        "4"
    } else if d == 5 {
        "5"
    } else if d == 6 {
        "6"
    } else if d == 7 {
        "7"
    } else if d == 8 {
        "8"
    } else {
        "9"
    };
    assert(s@ =~= seq![digit_char(d as nat)]);
    s
}

/// Appends `n`, written in decimal, to `out`.
pub fn push_decimal(out: &mut String, n: usize)
    ensures
        final(out)@ == old(out)@ + decimal(n as nat),
    decreases n,
{
    if n >= 10 {
        push_decimal(out, n / 10);
    }
    out.append(digit_str(n % 10));
    proof {
        if n >= 10 {
            assert(old(out)@ + decimal((n / 10) as nat) + seq![digit_char((n % 10) as nat)]
                =~= old(out)@ + decimal(n as nat));
        }
    }
}

impl ParseError {
    /// An `InvalidValue` at `pos` that says `message`.
    pub fn invalid_value(pos: usize, message: String) -> (e: ParseError)
        ensures
            e@ == (ParseErrorView::InvalidValue { pos: pos as nat, message: message@ }),
    {
        ParseError::InvalidValue(InvalidValue { pos, message })
    }

    /// An `UnexpectedEnd` at `pos`.
    pub fn unexpected_end(pos: usize) -> (e: ParseError)
        ensures
            e@ == (ParseErrorView::UnexpectedEnd { pos: pos as nat }),
    {
        ParseError::UnexpectedEnd(UnexpectedEnd { pos })
    }

    /// The text of this error.
    pub fn format(&self) -> (s: String)
        ensures
            s@ == spec_format(self@),
    {
        match self {
            ParseError::UnexpectedEnd(e) => {
                let mut s = String::from_str("Unexpected end at ");
                push_decimal(&mut s, e.pos);
                s
            },
            ParseError::InvalidValue(e) => {
                let mut s = String::from_str("Invalid value at ");
                push_decimal(&mut s, e.pos);
                s.append(": ");
                s.append(e.message.as_str());
                s
            },
        }
    }
}

/// The line of `text` that holds the byte offset `pos`, and the offset at which that
/// line starts, where `text` itself starts at offset `start`: the first line that ends at
/// `pos` or after it. A line ends where its line feed stands, or where the text ends.
pub open spec fn locate_line(text: Seq<char>, start: nat, pos: nat) -> Option<(Seq<char>, nat)>
    decreases text.len(),
{
    let end = start + byte_len(first_line(text));
    if end >= pos {
        Some((first_line(text), start))
    } else if line_len(text) < text.len() {
        proof {
            lemma_first_line(text);
        }
        locate_line(after_line(text), end + 1, pos)
    } else {
        None
    }
}

/// The diagnostic for the error `e` in `input`: the line that holds the place of the
/// error; under it a caret in the column of that place, counted in bytes, and the text of
/// the error right after the caret. An error that lies behind the end of `input` has no
/// diagnostic.
pub open spec fn spec_show_parse_error(input: Seq<char>, e: ParseErrorView) -> Seq<char> {
    match locate_line(input, 0, e.pos()) {
        Some((line, start)) => line + seq!['\n'] + spaces((e.pos() - start) as nat) + seq!['^']
            + spec_format(e) + seq!['\n'],
        None => seq![],
    }
}

/// Renders the diagnostic for the error `e`, which was found in `input`.
pub fn show_parse_error(input: &str, e: &ParseError) -> (res: String)
    ensures
        res@ == spec_show_parse_error(input@, e@),
{
    let pos: usize = match e {
        ParseError::UnexpectedEnd(ue) => ue.pos,
        ParseError::InvalidValue(iv) => iv.pos,
    };
    let total: usize = str_len(input);
    let mut cur: &str = input;
    let mut current_pos: usize = 0;
    loop
        invariant
            pos == e@.pos(),
            total == byte_len(input@),
            current_pos + byte_len(cur@) == total,
            current_pos <= pos,
            locate_line(input@, 0, pos as nat) == locate_line(cur@, current_pos as nat, pos as nat),
        decreases cur@.len(),
    {
        let ghost text = cur@;
        proof {
            lemma_first_line(text);
            lemma_byte_len_bounds(text, line_len(text) as int);
            lemma_byte_len_bounds(text, line_step(text) as int);
        }
        let (line, step) = str_line(cur);
        let line_end: usize = current_pos + str_len(line);
        if line_end >= pos {
            let mut res = String::new();
            res.append(line);
            res.append("\n");
            let ghost head = res@;
            let mut i: usize = 0;
            while i < pos - current_pos
                invariant
                    current_pos <= pos,
                    0 <= i <= pos - current_pos,
                    res@ == head + spaces(i as nat),
                decreases pos - current_pos - i,
            {
                proof {
                    reveal_strlit(" ");
                }
                res.append(" ");
                i = i + 1;
                assert(res@ =~= head + spaces(i as nat));
            }
            res.append("^");
            let message = e.format();
            res.append(message.as_str());
            res.append("\n");
            proof {
                reveal_strlit("\n");
                reveal_strlit("^");
                assert("\n"@ =~= seq!['\n']);
                assert("^"@ =~= seq!['^']);
                assert(head + spaces(0) =~= head);
            }
            return res;
        }
        if step > str_len(line) {
            let (_, rest) = str_split(cur, step, Ghost(line_step(text) as int));
            cur = rest;
            current_pos = line_end + 1;
        } else {
            return String::new();
        }
    }
}

} // verus!
