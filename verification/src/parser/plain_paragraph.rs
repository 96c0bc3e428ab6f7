use crate::context::Context;
use crate::cursor::Cursor;
use crate::lines::block_len;
use crate::parser::common::{indented_paragraph, paragraph_lines, ParseResult};
use crate::text::string_views;
use vstd::prelude::*;

verus! {

/// Reads the paragraph of a section that holds plain text: the block of lines that are
/// blank or indented by more than the baseline of `ctx`, moved to the left margin.
pub fn parse_plain_paragraph<'a>(input: &mut Cursor<'a>, ctx: &mut Context) -> (r: ParseResult<
    Vec<String>,
>)
    requires
        old(input).wf(),
    ensures
        *final(ctx) == *old(ctx),
        r matches Ok(lines) && string_views(lines@) == paragraph_lines(
            old(input).remaining(),
            old(ctx).indent as nat,
        ),
        old(input).steps_to(
            final(input),
            block_len(old(input).remaining(), old(ctx).indent as nat) as int,
        ),
{
    let paragraph = match indented_paragraph(input, ctx) {
        Ok(paragraph) => paragraph,
        Err(e) => {
            return Err(e);
        },
    };
    Ok(paragraph)
}

} // verus!
