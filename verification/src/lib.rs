//! A parser for Google-style docstrings.
//!
//! A docstring is read line by line into paragraphs: lists of arguments, descriptions of
//! what is returned, blocks of examples, and plain lines. Which lines belong to a section
//! is decided by their indentation.
//!
//! The parser reads through a [`cursor::Cursor`], keeps the indentation baseline of the
//! open block in a [`context::Context`], and reports the first malformed construct as an
//! [`error::ParseError`] with its byte offset. What each function reads is stated over
//! the characters that remain at the cursor.

pub mod context;
pub mod cursor;
pub mod error;
pub mod guard;
pub mod indent;
pub mod lines;
pub mod parser;
pub mod scan;
pub mod schema;
pub mod text;
pub mod utils;

use crate::context::Context;
use crate::cursor::Cursor;
use crate::indent::TAB_SIZE;
use crate::parser::common::{Outcome, ParseResult};
use crate::parser::docstring::{parse_docstring, spec_parse_docstring};
use crate::schema::{paragraph_views, Docstring};
use crate::text::{byte_len, lemma_byte_len_chars, str_len};
use vstd::prelude::*;

verus! {

/// Tells whether `input` is short enough for its indentation to be counted in columns:
/// whether four times its length in bytes is a `usize`. A text that passes can be parsed.
pub fn columns_fit(input: &str) -> (r: bool)
    ensures
        r == (TAB_SIZE * byte_len(input@) <= usize::MAX),
        r ==> TAB_SIZE * input@.len() <= usize::MAX,
{
    proof {
        lemma_byte_len_chars(input@);
    }
    str_len(input) <= usize::MAX / TAB_SIZE
}

/// Parses the docstring `input` from its start to its end, with a baseline of zero.
///
/// It gives the paragraphs in the order of the text, or the first error, which names the
/// byte offset in `input` at which the parse stopped.
pub fn parse(input: &str) -> (r: ParseResult<Docstring>)
    requires
        TAB_SIZE * input@.len() <= usize::MAX,
    ensures
        match spec_parse_docstring(input@) {
            Outcome::Done(paragraphs, used) => r matches Ok(d) && paragraph_views(d@)
                == paragraphs && used == input@.len(),
            Outcome::Failed(fault, used) => r matches Err(e) && used <= input@.len() && e@
                == fault.at(byte_len(input@.take(used as int))),
        },
{
    let mut cursor = Cursor::new(input);
    let mut ctx = Context::new(0);
    let ghost start = cursor;
    let r = parse_docstring(&mut cursor, &mut ctx);
    proof {
        start.lemma_parts();
        cursor.lemma_parts();
    }
    r
}

} // verus!
