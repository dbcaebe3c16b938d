//! Token data model: the categories a lexeme can classify into, the token
//! union itself, and the lexical error type.

use vstd::prelude::*;

verus! {

/// Reserved words of the language, recognized only via exact,
/// case-sensitive identifier-buffer match.
#[derive(Debug, Clone, Copy, PartialEq, Eq, Structural)]
pub enum Keywords {
    Let,
    Const,
    Print,
    PrintLine,
    Loop,
    While,
    For,
    Function,
    Type,
    If,
    Else,
    Main,
    New,
    Import,
    /// The standard-library marker `std`.
    StandardLibrary,
}

#[derive(Debug, Clone, Copy, PartialEq, Eq, Structural)]
pub enum Operators {
    /// Adding operator '+'
    Add,
    /// Subtracting operator '-'
    Subtract,
    /// Multiplying operator '*'
    Multiply,
    /// Dividing operator '/'
    Divide,
    /// Assigning operator '='
    Assign,
    /// Equals operator '=='
    Equals,
    /// Less than operator '<'
    LessThan,
    /// Greater than operator '>'
    GreaterThan,
}

/// Primitive type keywords. A distinct namespace from `Keywords`, though
/// resolved through the same buffer-matching step.
#[derive(Debug, Clone, Copy, PartialEq, Eq, Structural)]
pub enum Types {
    /// Bool type (false | true)
    Bool,
    /// Signed 64-bit integer type
    Int,
    /// Unsigned 64-bit integer type
    UInt,
    /// 64-bit float type
    Float,
    /// String type
    StringType,
    /// Array type, written with brackets; no bare keyword maps to it.
    Array,
    /// Null/unit marker
    Null,
}

/// Structural punctuation.
#[derive(Debug, Clone, Copy, PartialEq, Eq, Structural)]
pub enum Delimiter {
    /// End of statement ';'
    Semicolon,
    /// Open sequence '('
    OpenSequence,
    /// Close sequence ')'
    CloseSequence,
    /// Open array '['
    OpenArray,
    /// Close array ']'
    CloseArray,
    /// Open object '{'
    OpenObject,
    /// Close object '}'
    CloseObject,
    /// String marking '"'
    QuoteString,
    /// Separates different items ','
    Comma,
    /// Declares a function return type '->'
    TypeArrow,
    /// Introduces a function literal '=>'
    FunctionArrow,
    OpenTypeParams,
    CloseTypeParams,
    /// The object separator '.', for getting values and calling methods
    ObjectSeparator,
    /// The import path separator '::'
    ImportSeparator,
    OpenInterpolation,
    CloseInterpolation,
    OpenString,
    CloseString,
}

/// One classified, immutable unit of lexical output. Literal variants own
/// their decoded value rather than the raw lexeme, with one exception: a
/// float literal keeps its lexeme text, and the caller decodes it into a
/// binary float outside the library.
#[derive(Debug, PartialEq)]
pub enum Token {
    Keyword(Keywords),
    Types(Types),
    Operator(Operators),
    Delimiter(Delimiter),
    Identifier(String),
    LiteralString(String),
    LiteralInteger(i64),
    LiteralUInteger(u64),
    /// The lexeme of a float literal, e.g. `3.14` or `1e-5`.
    LiteralFloat(String),
}

/// The mathematical model of a token: string-carrying variants hold the
/// character sequence itself.
#[verifier::ext_equal]
pub ghost enum TokenView {
    Keyword(Keywords),
    Types(Types),
    Operator(Operators),
    Delimiter(Delimiter),
    Identifier(Seq<char>),
    LiteralString(Seq<char>),
    LiteralInteger(i64),
    LiteralUInteger(u64),
    LiteralFloat(Seq<char>),
}

impl View for Token {
    type V = TokenView;

    open spec fn view(&self) -> TokenView {
        match self {
            Token::Keyword(k) => TokenView::Keyword(*k),
            Token::Types(t) => TokenView::Types(*t),
            Token::Operator(o) => TokenView::Operator(*o),
            Token::Delimiter(d) => TokenView::Delimiter(*d),
            Token::Identifier(s) => TokenView::Identifier(s@),
            Token::LiteralString(s) => TokenView::LiteralString(s@),
            Token::LiteralInteger(v) => TokenView::LiteralInteger(*v),
            Token::LiteralUInteger(v) => TokenView::LiteralUInteger(*v),
            Token::LiteralFloat(s) => TokenView::LiteralFloat(s@),
        }
    }
}

/// The model of a token sequence.
pub open spec fn tokens_view(ts: Seq<Token>) -> Seq<TokenView> {
    ts.map_values(|t: Token| t@)
}

/// A lexical error. Offsets count characters, not bytes, from the start of
/// the text handed to the lexer.
#[derive(Debug, Clone, Copy, PartialEq, Eq, Structural)]
pub enum LexError {
    /// A character that needs one character of look-ahead (`=`, `-`, `.`,
    /// `:` outside strings; `$`, `\` inside them) stood at the very end of
    /// the input. `offset` is the position of that character.
    UnexpectedEof { offset: usize },
    /// The input ended inside a string literal or inside an interpolation
    /// span. `start_offset` is the position of the opening `"` or of the
    /// `$` that opened the span.
    UnterminatedLiteral { start_offset: usize },
}

/// The model of a lexical error, with offsets as mathematical integers.
#[verifier::ext_equal]
pub ghost enum LexErrorView {
    UnexpectedEof { offset: int },
    UnterminatedLiteral { start_offset: int },
}

impl View for LexError {
    type V = LexErrorView;

    open spec fn view(&self) -> LexErrorView {
        match self {
            LexError::UnexpectedEof { offset } => LexErrorView::UnexpectedEof {
                offset: *offset as int,
            },
            LexError::UnterminatedLiteral { start_offset } => LexErrorView::UnterminatedLiteral {
                start_offset: *start_offset as int,
            },
        }
    }
}

} // verus!
