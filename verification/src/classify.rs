//! Classification of a flushed buffer into one token: reserved words and
//! multi-character symbols by exact match, then the numeric fallback chain
//! (signed integer, unsigned integer, float lexeme), then identifier.

use crate::chars::chars_eq_str;
use crate::chars::chars_to_string;
use crate::chars::str_to_chars;
use crate::numeric::is_float_lexeme;
use crate::numeric::spec_parse_i64;
use crate::numeric::spec_parse_u64;
use crate::numeric::is_float_chars;
use crate::numeric::parse_i64_chars;
use crate::numeric::parse_u64_chars;
use crate::token::Delimiter;
use crate::token::Keywords;
use crate::token::Operators;
use crate::token::Token;
use crate::token::TokenView;
use crate::token::Types;
use crate::token::tokens_view;
use vstd::prelude::*;

verus! {

/// The token a flushed buffer stands for. Reserved words and symbols win
/// over the numeric fallback; a buffer that is none of these and parses as
/// no number is an identifier.
pub open spec fn classify(buf: Seq<char>) -> TokenView {
    if buf == "::"@ {
        TokenView::Delimiter(Delimiter::ImportSeparator)
    } else if buf == "import"@ {
        TokenView::Keyword(Keywords::Import)
    } else if buf == "std"@ {
        TokenView::Keyword(Keywords::StandardLibrary)
    } else if buf == "main"@ {
        TokenView::Keyword(Keywords::Main)
    } else if buf == "=="@ {
        TokenView::Operator(Operators::Equals)
    } else if buf == "=>"@ {
        TokenView::Delimiter(Delimiter::FunctionArrow)
    } else if buf == "->"@ {
        TokenView::Delimiter(Delimiter::TypeArrow)
    } else if buf == "fn"@ {
        TokenView::Keyword(Keywords::Function)
    } else if buf == "type"@ {
        TokenView::Keyword(Keywords::Type)
    } else if buf == "const"@ {
        TokenView::Keyword(Keywords::Const)
    } else if buf == "let"@ {
        TokenView::Keyword(Keywords::Let)
    } else if buf == "int"@ {
        TokenView::Types(Types::Int)
    } else if buf == "uint"@ {
        TokenView::Types(Types::UInt)
    } else if buf == "float"@ {
        TokenView::Types(Types::Float)
    } else if buf == "null"@ {
        TokenView::Types(Types::Null)
    } else if buf == "str"@ {
        TokenView::Types(Types::StringType)
    } else if buf == "bool"@ {
        TokenView::Types(Types::Bool)
    } else if buf == "print"@ {
        TokenView::Keyword(Keywords::Print)
    } else if buf == "println"@ {
        TokenView::Keyword(Keywords::PrintLine)
    } else if buf == "new"@ {
        TokenView::Keyword(Keywords::New)
    } else if buf == "if"@ {
        TokenView::Keyword(Keywords::If)
    } else if buf == "else"@ {
        TokenView::Keyword(Keywords::Else)
    } else if buf == "loop"@ {
        TokenView::Keyword(Keywords::Loop)
    } else if buf == "while"@ {
        TokenView::Keyword(Keywords::While)
    } else if buf == "for"@ {
        TokenView::Keyword(Keywords::For)
    } else if buf == "+"@ {
        TokenView::Operator(Operators::Add)
    } else if buf == "-"@ {
        TokenView::Operator(Operators::Subtract)
    } else if buf == "*"@ {
        TokenView::Operator(Operators::Multiply)
    } else if buf == "/"@ {
        TokenView::Operator(Operators::Divide)
    } else if buf == "="@ {
        TokenView::Operator(Operators::Assign)
    } else if buf == ";"@ {
        TokenView::Delimiter(Delimiter::Semicolon)
    } else {
        match spec_parse_i64(buf) {
            Some(v) => TokenView::LiteralInteger(v),
            None => match spec_parse_u64(buf) {
                Some(v) => TokenView::LiteralUInteger(v),
                None => if is_float_lexeme(buf) {
                    TokenView::LiteralFloat(buf)
                } else {
                    TokenView::Identifier(buf)
                },
            },
        }
    }
}

/// Classifies a buffer held as a character vector.
pub fn classify_chars(buf: &Vec<char>) -> (t: Token)
    ensures
        t@ == classify(buf@),
{
    if chars_eq_str(buf, "::") {
        Token::Delimiter(Delimiter::ImportSeparator)
    } else if chars_eq_str(buf, "import") {
        Token::Keyword(Keywords::Import)
    } else if chars_eq_str(buf, "std") {
        Token::Keyword(Keywords::StandardLibrary)
    } else if chars_eq_str(buf, "main") {
        Token::Keyword(Keywords::Main)
    } else if chars_eq_str(buf, "==") {
        Token::Operator(Operators::Equals)
    } else if chars_eq_str(buf, "=>") {
        Token::Delimiter(Delimiter::FunctionArrow)
    } else if chars_eq_str(buf, "->") {
        Token::Delimiter(Delimiter::TypeArrow)
    } else if chars_eq_str(buf, "fn") {
        Token::Keyword(Keywords::Function)
    } else if chars_eq_str(buf, "type") {
        Token::Keyword(Keywords::Type)
    } else if chars_eq_str(buf, "const") {
        Token::Keyword(Keywords::Const)
    } else if chars_eq_str(buf, "let") {
        Token::Keyword(Keywords::Let)
    } else if chars_eq_str(buf, "int") {
        Token::Types(Types::Int)
    } else if chars_eq_str(buf, "uint") {
        Token::Types(Types::UInt)
    } else if chars_eq_str(buf, "float") {
        Token::Types(Types::Float)
    } else if chars_eq_str(buf, "null") {
        Token::Types(Types::Null)
    } else if chars_eq_str(buf, "str") {
        Token::Types(Types::StringType)
    } else if chars_eq_str(buf, "bool") {
        Token::Types(Types::Bool)
    } else if chars_eq_str(buf, "print") {
        Token::Keyword(Keywords::Print)
    } else if chars_eq_str(buf, "println") {
        Token::Keyword(Keywords::PrintLine)
    } else if chars_eq_str(buf, "new") {
        Token::Keyword(Keywords::New)
    } else if chars_eq_str(buf, "if") {
        Token::Keyword(Keywords::If)
    } else if chars_eq_str(buf, "else") {
        Token::Keyword(Keywords::Else)
    } else if chars_eq_str(buf, "loop") {
        Token::Keyword(Keywords::Loop)
    } else if chars_eq_str(buf, "while") {
        Token::Keyword(Keywords::While)
    } else if chars_eq_str(buf, "for") {
        Token::Keyword(Keywords::For)
    } else if chars_eq_str(buf, "+") {
        Token::Operator(Operators::Add)
    } else if chars_eq_str(buf, "-") {
        Token::Operator(Operators::Subtract)
    } else if chars_eq_str(buf, "*") {
        Token::Operator(Operators::Multiply)
    } else if chars_eq_str(buf, "/") {
        Token::Operator(Operators::Divide)
    } else if chars_eq_str(buf, "=") {
        Token::Operator(Operators::Assign)
    } else if chars_eq_str(buf, ";") {
        Token::Delimiter(Delimiter::Semicolon)
    } else {
        match parse_i64_chars(buf) {
            Some(v) => Token::LiteralInteger(v),
            None => match parse_u64_chars(buf) {
                Some(v) => Token::LiteralUInteger(v),
                None => if is_float_chars(buf) {
                    Token::LiteralFloat(chars_to_string(buf))
                } else {
                    Token::Identifier(chars_to_string(buf))
                },
            },
        }
    }
}

/// Classifies `buffer` and appends the resulting token.
pub fn process_buffer(tokens: &mut Vec<Token>, buffer: &str)
    ensures
        tokens_view(final(tokens)@) == tokens_view(old(tokens)@).push(classify(buffer@)),
{
    let cs = str_to_chars(buffer);
    let t = classify_chars(&cs);
    tokens.push(t);
    proof {
        assert(tokens_view(tokens@) =~= tokens_view(old(tokens)@).push(classify(buffer@)));
    }
}

} // verus!
