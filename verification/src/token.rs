//! The token type produced by the buffer and line-oriented scanners, and its
//! mathematical view.

use vstd::prelude::*;

verus! {

/// Tokens returned by [`crate::Str_tokenizer`] and [`crate::File_tokenizer`].
#[derive(Clone, PartialEq, Debug)]
pub enum Token {
    /// A non-negative base-10 integer.  The value is captured as a signed
    /// integer; negative signs are emitted as separate symbols.
    Integer(i64),
    /// A non-negative base-10 floating-point numeral, carried as its literal
    /// text (for example `".14"`); it holds at least one digit and exactly
    /// the characters matched by the numeral rule.
    Float(String),
    /// A run of non-alphanumeric symbol characters such as `"=="`, or a
    /// single character if that character is a singleton.
    Symbol(String),
    /// A token starting with an alphabetic character or `_`, followed by an
    /// arbitrary number of alphanumeric characters or `_`.
    Alphanum(String),
    /// An alphanumeric token reclassified because its text is in the
    /// caller-supplied keyword set (line-oriented scanner only).
    Keyword(String),
    /// A string literal, including the enclosing `"` characters.  It can
    /// span multiple lines when produced by the line-oriented scanner.
    Stringlit(String),
    /// Verbatim, untokenized text such as comments.
    Verbatim(String),
    /// Emitted when a new line is read, only when explicitly requested.
    Newline,
    /// An internal marker for a scan step that produced no token.
    Nothing,
    /// A fatal scanning condition (an unclosed literal or comment at end of
    /// input), reported through the normal token channel.
    Error(&'static str),
}

/// The mathematical view of a [`Token`]: the same shape over `Seq<char>`
/// and `int`.
pub enum TokView {
    Int(int),
    Fl(Seq<char>),
    Sym(Seq<char>),
    Alpha(Seq<char>),
    Kw(Seq<char>),
    Strlit(Seq<char>),
    Verb(Seq<char>),
    NL,
    Nothing,
    ErrTok(Seq<char>),
}

impl View for Token {
    type V = TokView;

    open spec fn view(&self) -> TokView {
        match self {
            Token::Integer(n) => TokView::Int(*n as int),
            Token::Float(t) => TokView::Fl(t@),
            Token::Symbol(t) => TokView::Sym(t@),
            Token::Alphanum(t) => TokView::Alpha(t@),
            Token::Keyword(t) => TokView::Kw(t@),
            Token::Stringlit(t) => TokView::Strlit(t@),
            Token::Verbatim(t) => TokView::Verb(t@),
            Token::Newline => TokView::NL,
            Token::Nothing => TokView::Nothing,
            Token::Error(m) => TokView::ErrTok(m@),
        }
    }
}

} // verus!
