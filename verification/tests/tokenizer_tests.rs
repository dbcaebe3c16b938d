use squidc::Delimiter;
use squidc::Keywords;
use squidc::LexError;
use squidc::Operators;
use squidc::Token;
use squidc::Types;
use squidc::check_next_char;
use squidc::process_buffer;
use squidc::tokenize;

fn toks(src: &str) -> Vec<Token> {
    tokenize(src.to_string()).expect("tokenize should succeed")
}

fn ident(s: &str) -> Token {
    Token::Identifier(s.to_string())
}

fn lit(s: &str) -> Token {
    Token::LiteralString(s.to_string())
}

#[test]
fn integer_literal_classifies_signed() {
    assert_eq!(toks("42"), vec![Token::LiteralInteger(42)]);
}

#[test]
fn huge_integer_classifies_unsigned() {
    assert_eq!(
        toks("18446744073709551615"),
        vec![Token::LiteralUInteger(18446744073709551615)]
    );
}

#[test]
fn float_literal_keeps_lexeme() {
    assert_eq!(toks("3.14"), vec![Token::LiteralFloat("3.14".to_string())]);
    match &toks("3.14")[0] {
        Token::LiteralFloat(s) => assert_eq!(s.parse::<f64>().unwrap(), 3.14),
        other => panic!("expected a float literal, got {other:?}"),
    }
}

#[test]
fn mixed_buffer_is_identifier() {
    assert_eq!(toks("abc123"), vec![ident("abc123")]);
}

#[test]
fn signed_boundary_values() {
    assert_eq!(toks("9223372036854775807"), vec![Token::LiteralInteger(i64::MAX)]);
    assert_eq!(
        toks("9223372036854775808"),
        vec![Token::LiteralUInteger(9223372036854775808)]
    );
}

#[test]
fn negative_number_is_subtract_then_literal() {
    assert_eq!(
        toks("-32"),
        vec![Token::Operator(Operators::Subtract), Token::LiteralInteger(32)]
    );
}

#[test]
fn over_unsigned_range_falls_to_float() {
    assert_eq!(
        toks("18446744073709551616"),
        vec![Token::LiteralFloat("18446744073709551616".to_string())]
    );
}

#[test]
fn exponent_and_special_float_lexemes() {
    assert_eq!(toks("1e5"), vec![Token::LiteralFloat("1e5".to_string())]);
    assert_eq!(toks("2.5e3"), vec![Token::LiteralFloat("2.5e3".to_string())]);
    // A sign inside an exponent is an operator character: it flushes the
    // buffer, so such a lexeme never reaches the float classification.
    assert_eq!(
        toks("2.5e-3"),
        vec![
            ident("2.5e"),
            Token::Operator(Operators::Subtract),
            Token::LiteralInteger(3),
        ]
    );
    assert_eq!(toks("inf"), vec![Token::LiteralFloat("inf".to_string())]);
    assert_eq!(toks("NaN"), vec![Token::LiteralFloat("NaN".to_string())]);
}

#[test]
fn string_escape_keeps_embedded_quote() {
    assert_eq!(
        toks("\"a\\\"b\""),
        vec![
            Token::Delimiter(Delimiter::OpenString),
            lit("a\"b"),
            Token::Delimiter(Delimiter::CloseString),
        ]
    );
}

#[test]
fn recognized_escapes_decode() {
    assert_eq!(
        toks("\"a\\nb\\tc\\\\d\""),
        vec![
            Token::Delimiter(Delimiter::OpenString),
            lit("a\nb\tc\\d"),
            Token::Delimiter(Delimiter::CloseString),
        ]
    );
}

#[test]
fn unrecognized_escape_is_dropped() {
    assert_eq!(
        toks("\"a\\qb\""),
        vec![
            Token::Delimiter(Delimiter::OpenString),
            lit("ab"),
            Token::Delimiter(Delimiter::CloseString),
        ]
    );
}

#[test]
fn interpolation_without_literal_fragments() {
    assert_eq!(
        toks("\"${x}\""),
        vec![
            Token::Delimiter(Delimiter::OpenString),
            Token::Delimiter(Delimiter::OpenInterpolation),
            ident("x"),
            Token::Delimiter(Delimiter::CloseInterpolation),
            Token::Delimiter(Delimiter::CloseString),
        ]
    );
}

#[test]
fn keyword_exact_match_only() {
    assert_eq!(toks("let"), vec![Token::Keyword(Keywords::Let)]);
    assert_eq!(toks("lett"), vec![ident("lett")]);
}

#[test]
fn keyword_table() {
    assert_eq!(toks("const"), vec![Token::Keyword(Keywords::Const)]);
    assert_eq!(toks("print"), vec![Token::Keyword(Keywords::Print)]);
    assert_eq!(toks("println"), vec![Token::Keyword(Keywords::PrintLine)]);
    assert_eq!(toks("loop"), vec![Token::Keyword(Keywords::Loop)]);
    assert_eq!(toks("while"), vec![Token::Keyword(Keywords::While)]);
    assert_eq!(toks("for"), vec![Token::Keyword(Keywords::For)]);
    assert_eq!(toks("fn"), vec![Token::Keyword(Keywords::Function)]);
    assert_eq!(toks("type"), vec![Token::Keyword(Keywords::Type)]);
    assert_eq!(toks("if"), vec![Token::Keyword(Keywords::If)]);
    assert_eq!(toks("else"), vec![Token::Keyword(Keywords::Else)]);
    assert_eq!(toks("main"), vec![Token::Keyword(Keywords::Main)]);
    assert_eq!(toks("new"), vec![Token::Keyword(Keywords::New)]);
    assert_eq!(toks("import"), vec![Token::Keyword(Keywords::Import)]);
    assert_eq!(toks("std"), vec![Token::Keyword(Keywords::StandardLibrary)]);
}

#[test]
fn type_table() {
    assert_eq!(toks("bool"), vec![Token::Types(Types::Bool)]);
    assert_eq!(toks("int"), vec![Token::Types(Types::Int)]);
    assert_eq!(toks("uint"), vec![Token::Types(Types::UInt)]);
    assert_eq!(toks("float"), vec![Token::Types(Types::Float)]);
    assert_eq!(toks("str"), vec![Token::Types(Types::StringType)]);
    assert_eq!(toks("null"), vec![Token::Types(Types::Null)]);
}

#[test]
fn type_arrow_is_one_token() {
    assert_eq!(toks("->"), vec![Token::Delimiter(Delimiter::TypeArrow)]);
    assert_eq!(
        toks("a->b"),
        vec![ident("a"), Token::Delimiter(Delimiter::TypeArrow), ident("b")]
    );
}

#[test]
fn function_arrow_and_comparisons() {
    assert_eq!(toks("=>"), vec![Token::Delimiter(Delimiter::FunctionArrow)]);
    assert_eq!(
        toks("a == b"),
        vec![ident("a"), Token::Operator(Operators::Equals), ident("b")]
    );
    assert_eq!(
        toks("a = b"),
        vec![ident("a"), Token::Operator(Operators::Assign), ident("b")]
    );
    assert_eq!(
        toks("a < b"),
        vec![ident("a"), Token::Operator(Operators::LessThan), ident("b")]
    );
    assert_eq!(
        toks("a > b"),
        vec![ident("a"), Token::Operator(Operators::GreaterThan), ident("b")]
    );
}

#[test]
fn arithmetic_operators() {
    assert_eq!(
        toks("a+b*c/d-e"),
        vec![
            ident("a"),
            Token::Operator(Operators::Add),
            ident("b"),
            Token::Operator(Operators::Multiply),
            ident("c"),
            Token::Operator(Operators::Divide),
            ident("d"),
            Token::Operator(Operators::Subtract),
            ident("e"),
        ]
    );
}

#[test]
fn import_separator() {
    assert_eq!(
        toks("std::io"),
        vec![
            Token::Keyword(Keywords::StandardLibrary),
            Token::Delimiter(Delimiter::ImportSeparator),
            ident("io"),
        ]
    );
}

#[test]
fn object_separator_vs_float_dot() {
    assert_eq!(
        toks("x.y"),
        vec![ident("x"), Token::Delimiter(Delimiter::ObjectSeparator), ident("y")]
    );
    assert_eq!(
        toks("1.x"),
        vec![
            Token::LiteralInteger(1),
            Token::Delimiter(Delimiter::ObjectSeparator),
            ident("x"),
        ]
    );
    assert_eq!(toks("1.5 "), vec![Token::LiteralFloat("1.5".to_string())]);
}

#[test]
fn brackets_and_delimiters() {
    assert_eq!(
        toks("[1, 2]"),
        vec![
            Token::Delimiter(Delimiter::OpenArray),
            Token::LiteralInteger(1),
            Token::Delimiter(Delimiter::Comma),
            Token::LiteralInteger(2),
            Token::Delimiter(Delimiter::CloseArray),
        ]
    );
}

#[test]
fn extra_whitespace_between_tokens_changes_nothing() {
    assert_eq!(toks("let x = 1;"), toks("let   x\t=  \n1 ;"));
    assert_eq!(toks("a == b"), toks("a ==\tb"));
    assert_eq!(toks("fn main()"), toks("fn\nmain( )"));
}

#[test]
fn assign_at_start_without_panic() {
    assert_eq!(toks("=x"), vec![Token::Operator(Operators::Assign), ident("x")]);
}

#[test]
fn unexpected_eof_errors() {
    assert_eq!(
        tokenize("a ==".to_string()),
        Err(LexError::UnexpectedEof { offset: 3 })
    );
    assert_eq!(tokenize("=".to_string()), Err(LexError::UnexpectedEof { offset: 0 }));
    assert_eq!(tokenize("x-".to_string()), Err(LexError::UnexpectedEof { offset: 1 }));
    assert_eq!(tokenize("x.".to_string()), Err(LexError::UnexpectedEof { offset: 1 }));
    assert_eq!(tokenize("x:".to_string()), Err(LexError::UnexpectedEof { offset: 1 }));
}

#[test]
fn unterminated_literal_errors() {
    assert_eq!(
        tokenize("\"abc".to_string()),
        Err(LexError::UnterminatedLiteral { start_offset: 0 })
    );
    assert_eq!(
        tokenize("x\"${y".to_string()),
        Err(LexError::UnterminatedLiteral { start_offset: 2 })
    );
}

#[test]
fn process_buffer_appends_classified_token() {
    let mut tokens = vec![Token::Delimiter(Delimiter::OpenObject)];
    process_buffer(&mut tokens, "let");
    process_buffer(&mut tokens, "counter9");
    assert_eq!(
        tokens,
        vec![
            Token::Delimiter(Delimiter::OpenObject),
            Token::Keyword(Keywords::Let),
            ident("counter9"),
        ]
    );
}

#[test]
fn check_next_char_reads_look_ahead() {
    assert_eq!(check_next_char("abc", &0), 'b');
    assert_eq!(check_next_char("abc", &1), 'c');
}
