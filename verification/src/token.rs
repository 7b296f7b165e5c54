use vstd::prelude::*;

verus! {

/// A lexical token. Every source line yields a run of these closed by `Eol`,
/// except the last line, which is closed by `Eof`.
#[derive(Clone, Debug, PartialEq)]
pub enum Token {
    /// A leading run of a single whitespace kind: the character and how often it repeats.
    Indent(char, usize),
    /// `%name`: an element name.
    Tag(String),
    /// `#name`: an id attribute.
    Id(String),
    /// `.name`: a class attribute.
    Class(String),
    /// Literal line content after any structural prefix.
    PlainText(String),
    /// A `/` line prefix.
    HtmlComment,
    /// A `-#` line prefix.
    HamlComment,
    /// A `!!!` prefix.
    Doctype,
    /// `=` directly after a tag, or alone on a line.
    Assign,
    /// `/` directly after a tag: a self-closing element.
    ClosingEmpty,
    /// End of a line.
    Eol,
    /// End of the input.
    Eof,
}

/// The mathematical value of a token: string payloads as sequences of characters.
pub enum TokenView {
    Indent(char, nat),
    Tag(Seq<char>),
    Id(Seq<char>),
    Class(Seq<char>),
    PlainText(Seq<char>),
    HtmlComment,
    HamlComment,
    Doctype,
    Assign,
    ClosingEmpty,
    Eol,
    Eof,
}

impl Token {
    /// A copy holding the same value.
    pub fn duplicate(&self) -> (r: Token)
        ensures
            r@ == self@,
    {
        match self {
            Token::Indent(c, n) => Token::Indent(*c, *n),
            Token::Tag(s) => Token::Tag(s.clone()),
            Token::Id(s) => Token::Id(s.clone()),
            Token::Class(s) => Token::Class(s.clone()),
            Token::PlainText(s) => Token::PlainText(s.clone()),
            Token::HtmlComment => Token::HtmlComment,
            Token::HamlComment => Token::HamlComment,
            Token::Doctype => Token::Doctype,
            Token::Assign => Token::Assign,
            Token::ClosingEmpty => Token::ClosingEmpty,
            Token::Eol => Token::Eol,
            Token::Eof => Token::Eof,
        }
    }
}

impl View for Token {
    type V = TokenView;

    open spec fn view(&self) -> TokenView {
        match self {
            Token::Indent(c, n) => TokenView::Indent(*c, *n as nat),
            Token::Tag(s) => TokenView::Tag(s@),
            Token::Id(s) => TokenView::Id(s@),
            Token::Class(s) => TokenView::Class(s@),
            Token::PlainText(s) => TokenView::PlainText(s@),
            Token::HtmlComment => TokenView::HtmlComment,
            Token::HamlComment => TokenView::HamlComment,
            Token::Doctype => TokenView::Doctype,
            Token::Assign => TokenView::Assign,
            Token::ClosingEmpty => TokenView::ClosingEmpty,
            Token::Eol => TokenView::Eol,
            Token::Eof => TokenView::Eof,
        }
    }
}

} // verus!
