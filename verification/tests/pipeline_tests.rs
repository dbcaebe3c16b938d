use squidc::Args;
use squidc::Delimiter;
use squidc::Keywords;
use squidc::LexError;
use squidc::SourceLexError;
use squidc::Token;
use squidc::code_chunckenizer;
use squidc::remove_comments;
use squidc::tokenize;
use squidc::tokenize_chunks;
use squidc::tokenize_source;

fn ident(s: &str) -> Token {
    Token::Identifier(s.to_string())
}

#[test]
fn strip_removes_comment_and_leading_whitespace() {
    assert_eq!(
        remove_comments("let x = 1; // set x\n    indented\n"),
        "let x = 1;\nindented\n"
    );
}

#[test]
fn strip_keeps_trailing_spaces_without_comment() {
    assert_eq!(remove_comments("a  \nb"), "a  \nb\n");
}

#[test]
fn strip_does_not_protect_strings() {
    // A `//` inside a string literal still cuts the line.
    assert_eq!(remove_comments("x = \"a//b\";"), "x = \"a\n");
}

#[test]
fn strip_handles_crlf_lines() {
    assert_eq!(remove_comments("a\r\n  b\r\n"), "a\nb\n");
}

#[test]
fn chunker_splits_after_top_level_semicolons() {
    assert_eq!(
        code_chunckenizer("let x = 1; let y = 2;".to_string()),
        vec!["let x = 1;".to_string(), " let y = 2;".to_string()]
    );
}

#[test]
fn chunker_keeps_trailing_partial_chunk() {
    assert_eq!(
        code_chunckenizer("a; b".to_string()),
        vec!["a;".to_string(), " b".to_string()]
    );
}

#[test]
fn chunker_ignores_semicolons_inside_strings() {
    assert_eq!(
        code_chunckenizer("x\"a;b\";y".to_string()),
        vec!["x\"a;b\";".to_string(), "y".to_string()]
    );
}

#[test]
fn chunked_tokenization_preserves_order() {
    // Tokenizing the whole text equals concatenating the tokens of its
    // chunks in order.
    let whole = "let x = 1; print(x); x";
    let direct = tokenize(whole.to_string()).unwrap();
    let mut merged = Vec::new();
    for chunk in code_chunckenizer(whole.to_string()) {
        merged.extend(tokenize(chunk).unwrap());
    }
    assert_eq!(direct, merged);
}

#[test]
fn tokenize_chunks_merges_in_order() {
    let chunks = code_chunckenizer("a;b;".to_string());
    let merged = tokenize_chunks(chunks).unwrap();
    assert_eq!(
        merged,
        vec![
            ident("a"),
            Token::Delimiter(Delimiter::Semicolon),
            ident("b"),
            Token::Delimiter(Delimiter::Semicolon),
        ]
    );
}

#[test]
fn tokenize_chunks_reports_failing_chunk() {
    let chunks = vec!["a;".to_string(), "\"open".to_string()];
    assert_eq!(
        tokenize_chunks(chunks),
        Err(SourceLexError {
            chunk_index: 1,
            error: LexError::UnterminatedLiteral { start_offset: 0 },
        })
    );
}

#[test]
fn end_to_end_hello_interpolation() {
    let source = "fn main() { println(\"Hello, ${name}!\"); }";
    let expected = vec![
        Token::Keyword(Keywords::Function),
        Token::Keyword(Keywords::Main),
        Token::Delimiter(Delimiter::OpenSequence),
        Token::Delimiter(Delimiter::CloseSequence),
        Token::Delimiter(Delimiter::OpenObject),
        Token::Keyword(Keywords::PrintLine),
        Token::Delimiter(Delimiter::OpenSequence),
        Token::Delimiter(Delimiter::OpenString),
        Token::LiteralString("Hello, ".to_string()),
        Token::Delimiter(Delimiter::OpenInterpolation),
        ident("name"),
        Token::Delimiter(Delimiter::CloseInterpolation),
        Token::LiteralString("!".to_string()),
        Token::Delimiter(Delimiter::CloseString),
        Token::Delimiter(Delimiter::CloseSequence),
        Token::Delimiter(Delimiter::Semicolon),
        Token::Delimiter(Delimiter::CloseObject),
    ];
    assert_eq!(tokenize(source.to_string()).unwrap(), expected);
    assert_eq!(tokenize_source(source).unwrap(), expected);
}

#[test]
fn pipeline_strips_comments_before_tokenizing() {
    let source = "let x = 1; // the answer\nprint(x);";
    let merged = tokenize_source(source).unwrap();
    assert_eq!(
        merged,
        vec![
            Token::Keyword(Keywords::Let),
            ident("x"),
            Token::Operator(squidc::Operators::Assign),
            Token::LiteralInteger(1),
            Token::Delimiter(Delimiter::Semicolon),
            Token::Keyword(Keywords::Print),
            Token::Delimiter(Delimiter::OpenSequence),
            ident("x"),
            Token::Delimiter(Delimiter::CloseSequence),
            Token::Delimiter(Delimiter::Semicolon),
        ]
    );
}

#[test]
fn empty_input_everywhere() {
    assert_eq!(tokenize(String::new()), Ok(vec![]));
    assert_eq!(remove_comments(""), "");
    assert_eq!(code_chunckenizer(String::new()), Vec::<String>::new());
    assert_eq!(tokenize_source(""), Ok(vec![]));
}

#[test]
fn pipeline_error_names_chunk_and_offset() {
    assert_eq!(
        tokenize_source("a;\n\"open"),
        Err(SourceLexError {
            chunk_index: 1,
            error: LexError::UnterminatedLiteral { start_offset: 1 },
        })
    );
}

#[test]
fn default_args_are_all_off() {
    let args = Args::default();
    assert!(!args.bundle);
    assert_eq!(args.optimizations, None);
    assert!(!args.version);
    assert!(!args.check_updates);
}
