use crate::context::Context;
use crate::cursor::Cursor;
use crate::guard::Guard;
use crate::indent::{indent_char, spec_is_indent_char};
use crate::lines::{
    after_line, block_len, first_line, indent_width, lemma_first_line, line_step, str_indent_width,
};
use crate::parser::argument::{lemma_block_len, lemma_parse_args_used, parse_args, spec_parse_args};
use crate::parser::common::{
    continued, fails_with, next_line, Outcome, paragraph_lines, ParseResult,
};
use crate::parser::plain_paragraph::parse_plain_paragraph;
use crate::scan::str_starts_with;
use crate::schema::{Docstring, DocstringParagraph, paragraph_views, ParagraphView};
use crate::text::str_views;
use vstd::prelude::*;
use vstd::string::*;

verus! {

/// The sections that a heading can open.
pub enum DocstringTitle {
    Args,
    Returns,
}

impl DocstringTitle {
    /// The headings of a list of arguments.
    pub fn args_heads() -> (heads: [&'static str; 2])
        ensures
            str_views(heads@) == seq!["Args"@, "Parameters"@],
    {
        let heads = ["Args", "Parameters"];
        assert(str_views(heads@) =~= seq!["Args"@, "Parameters"@]);
        heads
    }

    /// The headings of a description of what is returned.
    pub fn returns_heads() -> (heads: [&'static str; 1])
        ensures
            str_views(heads@) == seq!["Returns"@],
    {
        let heads = ["Returns"];
        assert(str_views(heads@) =~= seq!["Returns"@]);
        heads
    }

    /// The headings of a description of what is yielded.
    pub fn yields_heads() -> (heads: [&'static str; 1])
        ensures
            str_views(heads@) == seq!["Yields"@],
    {
        let heads = ["Yields"];
        assert(str_views(heads@) =~= seq!["Yields"@]);
        heads
    }

    /// The headings of a list of what is raised.
    pub fn raises_heads() -> (heads: [&'static str; 1])
        ensures
            str_views(heads@) == seq!["Raises"@],
    {
        let heads = ["Raises"];
        assert(str_views(heads@) =~= seq!["Raises"@]);
        heads
    }

    /// The headings of a block of examples.
    pub fn examples_heads() -> (heads: [&'static str; 1])
        ensures
            str_views(heads@) == seq!["Examples"@],
    {
        let heads = ["Examples"];
        assert(str_views(heads@) =~= seq!["Examples"@]);
        heads
    }

    /// The headings of a block of notes.
    pub fn notes_heads() -> (heads: [&'static str; 1])
        ensures
            str_views(heads@) == seq!["Notes"@],
    {
        let heads = ["Notes"];
        assert(str_views(heads@) =~= seq!["Notes"@]);
        heads
    }

    /// The headings of a list of references.
    pub fn references_heads() -> (heads: [&'static str; 1])
        ensures
            str_views(heads@) == seq!["References"@],
    {
        let heads = ["References"];
        assert(str_views(heads@) =~= seq!["References"@]);
        heads
    }

    /// The headings of a list of related items.
    pub fn see_also_heads() -> (heads: [&'static str; 1])
        ensures
            str_views(heads@) == seq!["See Also"@],
    {
        let heads = ["See Also"];
        assert(str_views(heads@) =~= seq!["See Also"@]);
        heads
    }

    /// The headings of a block of warnings.
    pub fn warnings_heads() -> (heads: [&'static str; 1])
        ensures
            str_views(heads@) == seq!["Warnings"@],
    {
        let heads = ["Warnings"];
        assert(str_views(heads@) =~= seq!["Warnings"@]);
        heads
    }
}

/// Whether `line` begins with one of `heads`.
pub open spec fn has_head(line: Seq<char>, heads: Seq<Seq<char>>) -> bool {
    exists|i: int| 0 <= i < heads.len() && (#[trigger] heads[i]).is_prefix_of(line)
}

/// Whether `line` opens a list of arguments.
pub open spec fn opens_args(line: Seq<char>) -> bool {
    has_head(line, seq!["Args"@, "Parameters"@])
}

/// Whether `line` opens a description of what is returned.
pub open spec fn opens_returns(line: Seq<char>) -> bool {
    has_head(line, seq!["Returns"@])
}

/// Whether `line` opens a block of examples.
pub open spec fn opens_examples(line: Seq<char>) -> bool {
    has_head(line, seq!["Examples"@])
}

/// A line that begins with one of `heads` is not indented, if none of `heads` is empty
/// or begins with an indentation character.
pub proof fn lemma_head_at_margin(line: Seq<char>, heads: Seq<Seq<char>>)
    requires
        has_head(line, heads),
        forall|i: int|
            0 <= i < heads.len() ==> (#[trigger] heads[i]).len() > 0 && !spec_is_indent_char(
                heads[i][0],
            ),
    ensures
        indent_width(line) == 0,
{
    let i = choose|i: int| 0 <= i < heads.len() && (#[trigger] heads[i]).is_prefix_of(line);
    let head = heads[i];
    assert(line.subrange(0, head.len() as int)[0] == head[0]);
    assert(!indent_char()(line[0]));
}

/// A line that begins with a heading is not indented: a heading is found at the left
/// margin only, and its section is read with a baseline of zero.
pub proof fn lemma_heading_indent(line: Seq<char>)
    requires
        is_heading(line),
    ensures
        indent_width(line) == 0,
{
    reveal_strlit("Args");
    reveal_strlit("Parameters");
    reveal_strlit("Returns");
    reveal_strlit("Examples");
    if opens_args(line) {
        lemma_head_at_margin(line, seq!["Args"@, "Parameters"@]);
    } else if opens_returns(line) {
        lemma_head_at_margin(line, seq!["Returns"@]);
    } else {
        lemma_head_at_margin(line, seq!["Examples"@]);
    }
}

/// The paragraph that `line` opens, read from `rest`, the text after the line.
///
/// A line that begins with a heading opens a section, which is read with the indentation
/// of the line as the baseline. Any other line is a paragraph by itself.
pub open spec fn spec_paragraph(line: Seq<char>, rest: Seq<char>) -> Outcome<ParagraphView> {
    if opens_args(line) {
        match spec_parse_args(rest, indent_width(line)) {
            Outcome::Done(args, used) => Outcome::Done(ParagraphView::Args(args), used),
            Outcome::Failed(fault, used) => Outcome::Failed(fault, used),
        }
    } else if opens_returns(line) {
        Outcome::Done(
            ParagraphView::Returns(paragraph_lines(rest, indent_width(line))),
            block_len(rest, indent_width(line)),
        )
    } else if opens_examples(line) {
        Outcome::Done(
            ParagraphView::Examples(paragraph_lines(rest, indent_width(line))),
            block_len(rest, indent_width(line)),
        )
    } else {
        Outcome::Done(ParagraphView::Raw(line), 0)
    }
}

/// A paragraph is read from no more text than there is.
pub proof fn lemma_paragraph_used(line: Seq<char>, rest: Seq<char>)
    ensures
        spec_paragraph(line, rest).used() <= rest.len(),
{
    lemma_parse_args_used(rest, indent_width(line));
    lemma_block_len(rest, indent_width(line));
}

/// The paragraphs of the docstring `s`: one for each line that is read at the top
/// level, until the text ends.
#[verifier::opaque]
pub open spec fn spec_parse_docstring(s: Seq<char>) -> Outcome<Seq<ParagraphView>>
    decreases s.len(),
{
    if s.len() == 0 {
        Outcome::Done(seq![], 0)
    } else {
        proof {
            lemma_first_line(s);
            lemma_paragraph_used(first_line(s), after_line(s));
        }
        match spec_paragraph(first_line(s), after_line(s)) {
            Outcome::Failed(fault, used) => Outcome::Failed(fault, line_step(s) + used),
            Outcome::Done(paragraph, used) => continued(
                seq![paragraph],
                line_step(s) + used,
                spec_parse_docstring(after_line(s).skip(used as int)),
            ),
        }
    }
}

/// The empty text has no paragraphs.
pub proof fn lemma_docstring_end(s: Seq<char>)
    requires
        s.len() == 0,
    ensures
        spec_parse_docstring(s) == Outcome::Done(Seq::<ParagraphView>::empty(), 0),
{
    reveal(spec_parse_docstring);
}

/// The paragraphs of a text come in the order of the text: they are the paragraph that
/// the first line opens and the paragraphs of what follows that paragraph. Where that
/// paragraph fails, the text fails.
pub proof fn lemma_docstring_step(s: Seq<char>)
    requires
        s.len() > 0,
    ensures
        ({
            let first = spec_paragraph(first_line(s), after_line(s));
            match first {
                Outcome::Failed(fault, used) => spec_parse_docstring(s) == Outcome::<
                    Seq<ParagraphView>,
                >::Failed(fault, line_step(s) + used),
                Outcome::Done(paragraph, used) => spec_parse_docstring(s) == continued(
                    seq![paragraph],
                    line_step(s) + used,
                    spec_parse_docstring(after_line(s).skip(used as int)),
                ),
            }
        }),
{
    reveal(spec_parse_docstring);
}

/// The lines of `s`, each without its line feed. A text that ends in a line feed has no
/// line after it.
pub open spec fn text_lines(s: Seq<char>) -> Seq<Seq<char>>
    decreases s.len(),
{
    if s.len() == 0 {
        seq![]
    } else {
        proof {
            lemma_first_line(s);
        }
        seq![first_line(s)] + text_lines(after_line(s))
    }
}

/// Whether `line` begins with a heading that opens a section.
pub open spec fn is_heading(line: Seq<char>) -> bool {
    opens_args(line) || opens_returns(line) || opens_examples(line)
}

/// One `Raw` paragraph for each of `lines`.
pub open spec fn raw_paragraphs(lines: Seq<Seq<char>>) -> Seq<ParagraphView> {
    lines.map_values(|line: Seq<char>| ParagraphView::Raw(line))
}

/// Those of `lines` that are not empty.
pub open spec fn non_empty_lines(lines: Seq<Seq<char>>) -> Seq<Seq<char>>
    decreases lines.len(),
{
    if lines.len() == 0 {
        lines
    } else if lines.last().len() == 0 {
        non_empty_lines(lines.drop_last())
    } else {
        non_empty_lines(lines.drop_last()).push(lines.last())
    }
}

/// A text in which no line begins with a heading is read to its end, as one `Raw`
/// paragraph for each line, in the order of the text.
pub proof fn lemma_raw_lines(s: Seq<char>)
    requires
        forall|i: int| 0 <= i < text_lines(s).len() ==> !is_heading(#[trigger] text_lines(s)[i]),
    ensures
        spec_parse_docstring(s) == Outcome::Done(raw_paragraphs(text_lines(s)), s.len()),
    decreases s.len(),
{
    if s.len() == 0 {
        lemma_docstring_end(s);
        assert(raw_paragraphs(text_lines(s)) =~= Seq::<ParagraphView>::empty());
    } else {
        lemma_docstring_step(s);
        lemma_first_line(s);
        let line = first_line(s);
        let rest = after_line(s);
        assert(text_lines(s)[0] == line);
        assert forall|i: int| 0 <= i < text_lines(rest).len() implies !is_heading(
            #[trigger] text_lines(rest)[i],
        ) by {
            assert(text_lines(rest)[i] == text_lines(s)[i + 1]);
        }
        lemma_raw_lines(rest);
        assert(rest.skip(0) =~= rest);
        assert(seq![ParagraphView::Raw(line)] + raw_paragraphs(text_lines(rest))
            =~= raw_paragraphs(text_lines(s)));
    }
}

/// A text in which no line is empty and none begins with a heading is read to its end,
/// as one `Raw` paragraph for each line that is not empty, in the order of the text.
pub proof fn lemma_raw_non_empty_lines(s: Seq<char>)
    requires
        forall|i: int| 0 <= i < text_lines(s).len() ==> !is_heading(#[trigger] text_lines(s)[i]),
        forall|i: int| 0 <= i < text_lines(s).len() ==> (#[trigger] text_lines(s)[i]).len() > 0,
    ensures
        spec_parse_docstring(s) == Outcome::Done(
            raw_paragraphs(non_empty_lines(text_lines(s))),
            s.len(),
        ),
{
    lemma_raw_lines(s);
    lemma_non_empty_lines(text_lines(s));
}

/// A list of lines of which none is empty is the list of its lines that are not empty.
pub proof fn lemma_non_empty_lines(lines: Seq<Seq<char>>)
    requires
        forall|i: int| 0 <= i < lines.len() ==> (#[trigger] lines[i]).len() > 0,
    ensures
        non_empty_lines(lines) == lines,
    decreases lines.len(),
{
    if lines.len() > 0 {
        let front = lines.drop_last();
        assert forall|i: int| 0 <= i < front.len() implies (#[trigger] front[i]).len() > 0 by {
            assert(front[i] == lines[i]);
        }
        lemma_non_empty_lines(front);
        assert(front.push(lines.last()) =~= lines);
    }
}

/// Tells whether `line` begins with one of `heads`.
fn starts_with_any(line: &str, heads: &[&'static str]) -> (r: bool)
    ensures
        r == has_head(line@, str_views(heads@)),
{
    let mut i: usize = 0;
    while i < heads.len()
        invariant
            0 <= i <= heads.len(),
            forall|j: int| 0 <= j < i ==> !(#[trigger] str_views(heads@)[j]).is_prefix_of(line@),
        decreases heads.len() - i,
    {
        if str_starts_with(line, heads[i]) {
            assert(str_views(heads@)[i as int] == heads@[i as int]@);
            return true;
        }
        i = i + 1;
    }
    false
}

/// Reads the paragraph that `line` opens.
fn parse_section<'a>(line: String, input: &mut Cursor<'a>, ctx: &mut Context) -> (r: ParseResult<
    DocstringParagraph,
>)
    requires
        old(input).wf(),
        old(input).columns_fit(),
    ensures
        *final(ctx) == *old(ctx),
        match spec_paragraph(line@, old(input).remaining()) {
            Outcome::Done(paragraph, used) => r matches Ok(p) && p@ == paragraph && old(
                input,
            ).steps_to(final(input), used as int),
            Outcome::Failed(fault, used) => fails_with(r, fault, used, old(input), final(input)),
        },
{
    proof {
        input.lemma_step(input, 0);
    }
    if starts_with_any(line.as_str(), DocstringTitle::args_heads().as_slice()) {
        let indent: usize = str_indent_width(line.as_str());
        let ctx_guard = ctx.guard(Context::new(indent));
        let parsed = parse_args(input, ctx);
        ctx_guard.restore(ctx);
        match parsed {
            Ok(args) => Ok(DocstringParagraph::Args(args)),
            Err(e) => Err(e),
        }
    } else if starts_with_any(line.as_str(), DocstringTitle::returns_heads().as_slice()) {
        let indent: usize = str_indent_width(line.as_str());
        let ctx_guard = ctx.guard(Context::new(indent));
        let parsed = parse_plain_paragraph(input, ctx);
        ctx_guard.restore(ctx);
        match parsed {
            Ok(lines) => Ok(DocstringParagraph::Returns(lines)),
            Err(e) => Err(e),
        }
    } else if starts_with_any(line.as_str(), DocstringTitle::examples_heads().as_slice()) {
        let indent: usize = str_indent_width(line.as_str());
        let ctx_guard = ctx.guard(Context::new(indent));
        let parsed = parse_plain_paragraph(input, ctx);
        ctx_guard.restore(ctx);
        match parsed {
            Ok(lines) => Ok(DocstringParagraph::Examples(lines)),
            Err(e) => Err(e),
        }
    } else {
        Ok(DocstringParagraph::Raw(line))
    }
}

/// Reads a docstring to its end.
///
/// Each line that is read at the top level makes a paragraph. A line that begins with
/// `Args` or `Parameters` opens a list of arguments, one that begins with `Returns` or
/// `Examples` a section of plain text; the section is read under a guard that makes the
/// indentation of the heading the baseline, and the guard is released whether the section
/// was read or not. Any other line is a `Raw` paragraph. The first error ends the parse.
pub fn parse_docstring<'a>(input: &mut Cursor<'a>, ctx: &mut Context) -> (r: ParseResult<
    Docstring,
>)
    requires
        old(input).wf(),
        old(input).columns_fit(),
    ensures
        *final(ctx) == *old(ctx),
        match spec_parse_docstring(old(input).remaining()) {
            Outcome::Done(paragraphs, used) => r matches Ok(d) && paragraph_views(d@)
                == paragraphs && old(input).steps_to(final(input), used as int)
                && final(input).remaining().len() == 0,
            Outcome::Failed(fault, used) => fails_with(r, fault, used, old(input), final(input)),
        },
{
    let ghost start = *input;
    let ghost rem0 = input.remaining();
    let mut docstring: Vec<DocstringParagraph> = Vec::new();
    let ghost mut done: int = 0;
    proof {
        start.lemma_step(input, 0);
        assert(paragraph_views(docstring@) =~= Seq::<ParagraphView>::empty());
        let first = spec_parse_docstring(rem0);
        if first is Done {
            assert(paragraph_views(docstring@) + first->Done_0 =~= first->Done_0);
        }
    }
    loop
        invariant
            input.wf(),
            input.columns_fit(),
            *ctx == *old(ctx),
            start == *old(input),
            rem0 == start.remaining(),
            0 <= done,
            start.steps_to(input, done),
            spec_parse_docstring(rem0) == continued(
                paragraph_views(docstring@),
                done as nat,
                spec_parse_docstring(input.remaining()),
            ),
        decreases input.remaining().len(),
    {
        let ghost s = input.remaining();
        let ghost at_line = *input;
        let ghost seen = paragraph_views(docstring@);
        if input.eof() {
            proof {
                lemma_docstring_end(s);
                assert(seen + Seq::<ParagraphView>::empty() =~= seen);
            }
            return Ok(docstring);
        }
        proof {
            lemma_docstring_step(s);
        }
        let line = match next_line(input, ctx) {
            Ok(line) => line,
            Err(e) => {
                return Err(e);
            },
        };
        let ghost at_rest = *input;
        let parsed = parse_section(line, input, ctx);
        let ghost used = spec_paragraph(first_line(s), after_line(s)).used() as int;
        proof {
            lemma_first_line(s);
            lemma_paragraph_used(first_line(s), after_line(s));
            at_line.lemma_steps_trans(&at_rest, input, line_step(s) as int, used);
            start.lemma_steps_trans(&at_line, input, done, line_step(s) + used);
        }
        match parsed {
            Ok(paragraph) => {
                docstring.push(paragraph);
            },
            Err(e) => {
                return Err(e);
            },
        }
        proof {
            let tail = spec_parse_docstring(after_line(s).skip(used));
            assert(paragraph_views(docstring@) =~= seen + seq![docstring@.last()@]);
            if tail is Done {
                assert(seen + (seq![docstring@.last()@] + tail->Done_0) =~= paragraph_views(
                    docstring@,
                ) + tail->Done_0);
            }
            done = done + line_step(s) + used;
        }
    }
}

} // verus!
