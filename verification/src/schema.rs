use crate::text::string_views;
use vstd::prelude::*;

verus! {

/// One documented parameter.
#[derive(PartialEq, Debug, Clone)]
pub struct Argument {
    /// The parameter's name.
    pub name: String,
    /// The text between the parentheses after the name, if there are any.
    pub typ: Option<String>,
    /// The lines of the description; a blank line is an empty string.
    pub desc: Vec<String>,
}

/// One paragraph of a docstring.
#[derive(PartialEq, Debug, Clone)]
pub enum DocstringParagraph {
    Raw(String),
    Warning(String),
    Note(String),
    Args(Vec<Argument>),
    Returns(Vec<String>),
    Examples(Vec<String>),
}

/// The paragraphs of a docstring, in the order of the source.
pub type Docstring = Vec<DocstringParagraph>;

/// What an `Argument` holds, as plain sequences.
pub struct ArgumentView {
    pub name: Seq<char>,
    pub typ: Option<Seq<char>>,
    pub desc: Seq<Seq<char>>,
}

/// What a `DocstringParagraph` holds, as plain sequences.
pub enum ParagraphView {
    Raw(Seq<char>),
    Warning(Seq<char>),
    Note(Seq<char>),
    Args(Seq<ArgumentView>),
    Returns(Seq<Seq<char>>),
    Examples(Seq<Seq<char>>),
}

/// The views of a list of arguments.
pub open spec fn argument_views(v: Seq<Argument>) -> Seq<ArgumentView> {
    v.map_values(|a: Argument| a@)
}

/// The views of a list of paragraphs.
pub open spec fn paragraph_views(v: Seq<DocstringParagraph>) -> Seq<ParagraphView> {
    v.map_values(|p: DocstringParagraph| p@)
}

impl View for Argument {
    type V = ArgumentView;

    open spec fn view(&self) -> ArgumentView {
        ArgumentView {
            name: self.name@,
            typ: match self.typ {
                Some(t) => Some(t@),
                None => None,
            },
            desc: string_views(self.desc@),
        }
    }
}

impl View for DocstringParagraph {
    type V = ParagraphView;

    open spec fn view(&self) -> ParagraphView {
        match *self {
            DocstringParagraph::Raw(s) => ParagraphView::Raw(s@),
            DocstringParagraph::Warning(s) => ParagraphView::Warning(s@),
            DocstringParagraph::Note(s) => ParagraphView::Note(s@),
            DocstringParagraph::Args(v) => ParagraphView::Args(argument_views(v@)),
            DocstringParagraph::Returns(v) => ParagraphView::Returns(string_views(v@)),
            DocstringParagraph::Examples(v) => ParagraphView::Examples(string_views(v@)),
        }
    }
}

} // verus!
