//! The executable lexer core: one chunk of text in, its ordered token
//! sequence out, proved to implement the machine model `lex_all`.

use crate::chars::chars_to_string;
use crate::chars::str_to_chars;
use crate::classify::classify_chars;
use crate::machine::LexMode;
use crate::machine::LexSt;
use crate::machine::after_emit;
use crate::machine::emit_then;
use crate::machine::flush_tokens;
use crate::machine::init_st;
use crate::machine::is_equals_last;
use crate::machine::lex_all;
use crate::machine::lex_run;
use crate::machine::lex_step;
use crate::machine::lemma_emit_then_assoc;
use crate::machine::literal_tokens;
use crate::token::Delimiter;
use crate::token::LexError;
use crate::token::LexErrorView;
use crate::token::Operators;
use crate::token::Token;
use crate::token::TokenView;
use crate::token::tokens_view;
use vstd::prelude::*;
use vstd::string::StrSliceExecFns;

verus! {

/// The executable counterpart of `LexMode`; the interpolation buffer is a
/// separate vector, cleared on entry to the span.
#[derive(Clone, Copy)]
enum Mode {
    Normal,
    InString { start: usize },
    InInterp { string_start: usize, interp_start: usize },
}

spec fn mode_view(m: Mode, ibuf: Seq<char>) -> LexMode {
    match m {
        Mode::Normal => LexMode::Normal,
        Mode::InString { start } => LexMode::InString { start: start as int },
        Mode::InInterp { string_start, interp_start } => LexMode::InInterp {
            string_start: string_start as int,
            interp_start: interp_start as int,
            ibuf,
        },
    }
}

spec fn last_view(toks: Seq<Token>) -> Option<TokenView> {
    if toks.len() == 0 {
        None
    } else {
        Some(toks.last()@)
    }
}

spec fn cur_st(m: Mode, ibuf: Seq<char>, buf: Seq<char>, toks: Seq<Token>) -> LexSt {
    LexSt { mode: mode_view(m, ibuf), buf, last: last_view(toks) }
}

/// Appending one token on top of an already-flushed prefix.
proof fn lemma_append_one(pre: Seq<TokenView>, fl: Seq<TokenView>, mid: Seq<Token>, t: Token)
    requires
        tokens_view(mid) == pre + fl,
    ensures
        tokens_view(mid.push(t)) == pre + (fl + seq![t@]),
        (fl + seq![t@]).last() == t@,
        (fl + seq![t@]).len() > 0,
{
    let l = mid.push(t);
    let rhs = pre + (fl + seq![t@]);
    assert(tokens_view(l).len() == l.len());
    assert(tokens_view(mid).len() == mid.len());
    assert forall|j: int| 0 <= j < l.len() implies tokens_view(l)[j] == rhs[j] by {
        assert(tokens_view(l)[j] == l[j]@);
        if j < mid.len() {
            assert(l[j] == mid[j]);
            assert(tokens_view(mid)[j] == mid[j]@);
            assert((pre + fl)[j] == rhs[j]);
        } else {
            assert(l[j] == t);
            assert(rhs[j] == t@);
        }
    }
    assert(tokens_view(l) =~= rhs);
    assert((fl + seq![t@]).last() == t@);
}

/// One transition of the run decomposition: consuming a step moves the
/// already-emitted prefix forward.
proof fn lemma_loop_step(
    s: Seq<char>,
    nn: int,
    i: int,
    pre: LexSt,
    post: LexSt,
    e: Seq<TokenView>,
    i2: int,
    t0: Seq<TokenView>,
)
    requires
        i < nn,
        lex_step(s, i, pre) == Ok::<(Seq<TokenView>, LexSt, int), LexErrorView>((e, post, i2)),
        lex_run(s, 0, nn, init_st()) == emit_then(t0, lex_run(s, i, nn, pre)),
    ensures
        lex_run(s, 0, nn, init_st()) == emit_then(t0 + e, lex_run(s, i2, nn, post)),
{
    lemma_emit_then_assoc(t0, e, lex_run(s, i2, nn, post));
}

/// Flushes the pending buffer: classifies and appends it when nonempty.
fn flush_buf(toks: &mut Vec<Token>, buf: &mut Vec<char>)
    ensures
        tokens_view(final(toks)@) == tokens_view(old(toks)@) + flush_tokens(old(buf)@),
        final(buf)@ == Seq::<char>::empty(),
        last_view(final(toks)@) == after_emit(last_view(old(toks)@), flush_tokens(old(buf)@)),
{
    if buf.len() > 0 {
        let t = classify_chars(buf);
        toks.push(t);
        *buf = Vec::new();
        proof {
            assert(tokens_view(toks@) =~= tokens_view(old(toks)@) + flush_tokens(old(buf)@));
        }
    } else {
        proof {
            assert(tokens_view(toks@) =~= tokens_view(old(toks)@) + flush_tokens(old(buf)@));
        }
    }
}

/// Look-ahead primitive: the character after position `counter`, which must
/// exist. The lexer itself tests bounds and reports `UnexpectedEof` where
/// the next character is missing.
pub fn check_next_char(code: &str, counter: &usize) -> (c: char)
    requires
        *counter + 1 < code@.len(),
        code@.len() <= usize::MAX,
    ensures
        c == code@[*counter as int + 1],
{
    code.get_char(*counter + 1)
}

/// Converts one chunk of text into its ordered token sequence, or reports
/// the first lexical error with its character offset.
#[verifier::rlimit(100)]
pub fn tokenize(code: String) -> (r: Result<Vec<Token>, LexError>)
    ensures
        match r {
            Ok(v) => lex_all(code@) == Ok::<Seq<TokenView>, LexErrorView>(tokens_view(v@)),
            Err(e) => lex_all(code@) == Err::<Seq<TokenView>, LexErrorView>(e@),
        },
{
    let s = str_to_chars(code.as_str());
    let n = s.len();
    let ghost nn = n as int;
    let mut toks: Vec<Token> = Vec::new();
    let mut buf: Vec<char> = Vec::new();
    let mut ibuf: Vec<char> = Vec::new();
    let mut mode = Mode::Normal;
    let mut i: usize = 0;
    proof {
        assert(emit_then(
            tokens_view(toks@),
            lex_run(s@, 0, nn, cur_st(mode, ibuf@, buf@, toks@)),
        ) == lex_run(s@, 0, nn, init_st())) by {
            assert(cur_st(mode, ibuf@, buf@, toks@) == init_st());
            crate::machine::lemma_emit_then_empty(lex_run(s@, 0, nn, init_st()));
            assert(tokens_view(toks@) =~= Seq::<TokenView>::empty());
        }
    }
    while i < n
        invariant
            n == s@.len(),
            s@ == code@,
            nn == n as int,
            i <= n,
            lex_run(s@, 0, nn, init_st()) == emit_then(
                tokens_view(toks@),
                lex_run(s@, i as int, nn, cur_st(mode, ibuf@, buf@, toks@)),
            ),
        decreases n - i,
    {
        let ghost i0 = i as int;
        let ghost toks0 = toks@;
        let ghost buf0 = buf@;
        let ghost ibuf0 = ibuf@;
        let ghost mode0 = mode;
        let ghost st0 = cur_st(mode0, ibuf0, buf0, toks0);
        let c = s[i];
        match mode {
            Mode::InInterp { string_start, interp_start } => {
                if c == '}' {
                    toks.push(Token::Identifier(chars_to_string(&ibuf)));
                    toks.push(Token::Delimiter(Delimiter::CloseInterpolation));
                    ibuf = Vec::new();
                    mode = Mode::InString { start: string_start };
                    i = i + 1;
                    proof {
                        let e = seq![
                            TokenView::Identifier(ibuf0),
                            TokenView::Delimiter(Delimiter::CloseInterpolation),
                        ];
                        let st1 = cur_st(mode, ibuf@, buf@, toks@);
                        assert(tokens_view(toks@) =~= tokens_view(toks0) + e);
                        assert(lex_step(s@, i0, st0) == Ok::<_, LexErrorView>((e, st1, i as int)))
                            by {
                            reveal(lex_step);
                            assert(e.last() == TokenView::Delimiter(Delimiter::CloseInterpolation));
                            assert(toks@.last()@ == TokenView::Delimiter(
                                Delimiter::CloseInterpolation,
                            ));
                        }
                        lemma_loop_step(s@, nn, i0, st0, st1, e, i as int, tokens_view(toks0));
                    }
                } else {
                    ibuf.push(c);
                    i = i + 1;
                    proof {
                        let e = Seq::<TokenView>::empty();
                        let st1 = cur_st(mode, ibuf@, buf@, toks@);
                        assert(tokens_view(toks@) =~= tokens_view(toks0) + e);
                        assert(lex_step(s@, i0, st0) == Ok::<_, LexErrorView>((e, st1, i as int)))
                            by {
                            reveal(lex_step);
                        }
                        lemma_loop_step(s@, nn, i0, st0, st1, e, i as int, tokens_view(toks0));
                    }
                }
            },
            Mode::InString { start } => {
                if c == '"' {
                    if buf.len() > 0 {
                        toks.push(Token::LiteralString(chars_to_string(&buf)));
                        buf = Vec::new();
                    }
                    let ghost mid = toks@;
                    toks.push(Token::Delimiter(Delimiter::CloseString));
                    mode = Mode::Normal;
                    i = i + 1;
                    proof {
                        let fl = literal_tokens(buf0);
                        assert(tokens_view(mid) == tokens_view(toks0) + fl) by {
                            assert(tokens_view(mid) =~= tokens_view(toks0) + fl);
                        }
                        lemma_append_one(
                            tokens_view(toks0),
                            fl,
                            mid,
                            Token::Delimiter(Delimiter::CloseString),
                        );
                        let e = fl + seq![TokenView::Delimiter(Delimiter::CloseString)];
                        let st1 = cur_st(mode, ibuf@, buf@, toks@);
                        assert(lex_step(s@, i0, st0) == Ok::<_, LexErrorView>((e, st1, i as int)))
                            by {
                            reveal(lex_step);
                            assert(buf@ =~= Seq::<char>::empty());
                        }
                        lemma_loop_step(s@, nn, i0, st0, st1, e, i as int, tokens_view(toks0));
                    }
                } else if c == '$' {
                    if i + 1 >= n {
                        proof {
                            assert(lex_step(s@, i0, st0) == Err::<(Seq<TokenView>, LexSt, int), _>(
                                LexErrorView::UnexpectedEof { offset: i0 },
                            )) by {
                                reveal(lex_step);
                            }
                        }
                        return Err(LexError::UnexpectedEof { offset: i });
                    }
                    let la = s[i + 1];
                    if la == '{' {
                        if buf.len() > 0 {
                            toks.push(Token::LiteralString(chars_to_string(&buf)));
                            buf = Vec::new();
                        }
                        let ghost mid = toks@;
                        toks.push(Token::Delimiter(Delimiter::OpenInterpolation));
                        ibuf = Vec::new();
                        mode = Mode::InInterp { string_start: start, interp_start: i };
                        i = i + 2;
                        proof {
                            let fl = literal_tokens(buf0);
                            assert(tokens_view(mid) == tokens_view(toks0) + fl) by {
                                assert(tokens_view(mid) =~= tokens_view(toks0) + fl);
                            }
                            lemma_append_one(
                                tokens_view(toks0),
                                fl,
                                mid,
                                Token::Delimiter(Delimiter::OpenInterpolation),
                            );
                            let e = fl + seq![TokenView::Delimiter(Delimiter::OpenInterpolation)];
                            let st1 = cur_st(mode, ibuf@, buf@, toks@);
                            assert(lex_step(s@, i0, st0) == Ok::<_, LexErrorView>(
                                (e, st1, i as int),
                            )) by {
                                reveal(lex_step);
                                assert(buf@ =~= Seq::<char>::empty());
                                assert(ibuf@ =~= Seq::<char>::empty());
                            }
                            lemma_loop_step(s@, nn, i0, st0, st1, e, i as int, tokens_view(toks0));
                        }
                    } else {
                        buf.push('$');
                        i = i + 1;
                        proof {
                            let e = Seq::<TokenView>::empty();
                            let st1 = cur_st(mode, ibuf@, buf@, toks@);
                            assert(tokens_view(toks@) =~= tokens_view(toks0) + e);
                            assert(lex_step(s@, i0, st0) == Ok::<_, LexErrorView>(
                                (e, st1, i as int),
                            )) by {
                                reveal(lex_step);
                            }
                            lemma_loop_step(s@, nn, i0, st0, st1, e, i as int, tokens_view(toks0));
                        }
                    }
                } else if c == '\\' {
                    if i + 1 >= n {
                        proof {
                            assert(lex_step(s@, i0, st0) == Err::<(Seq<TokenView>, LexSt, int), _>(
                                LexErrorView::UnexpectedEof { offset: i0 },
                            )) by {
                                reveal(lex_step);
                            }
                        }
                        return Err(LexError::UnexpectedEof { offset: i });
                    }
                    let la = s[i + 1];
                    if la == '"' {
                        buf.push('"');
                    } else if la == '\\' {
                        buf.push('\\');
                    } else if la == 'n' {
                        buf.push('\n');
                    } else if la == 't' {
                        buf.push('\t');
                    }
                    i = i + 2;
                    proof {
                        let e = Seq::<TokenView>::empty();
                        let st1 = cur_st(mode, ibuf@, buf@, toks@);
                        assert(tokens_view(toks@) =~= tokens_view(toks0) + e);
                        assert(lex_step(s@, i0, st0) == Ok::<_, LexErrorView>((e, st1, i as int)))
                            by {
                            reveal(lex_step);
                        }
                        lemma_loop_step(s@, nn, i0, st0, st1, e, i as int, tokens_view(toks0));
                    }
                } else if c == '\n' || c == '\t' {
                    i = i + 1;
                    proof {
                        let e = Seq::<TokenView>::empty();
                        let st1 = cur_st(mode, ibuf@, buf@, toks@);
                        assert(tokens_view(toks@) =~= tokens_view(toks0) + e);
                        assert(lex_step(s@, i0, st0) == Ok::<_, LexErrorView>((e, st1, i as int)))
                            by {
                            reveal(lex_step);
                        }
                        lemma_loop_step(s@, nn, i0, st0, st1, e, i as int, tokens_view(toks0));
                    }
                } else {
                    buf.push(c);
                    i = i + 1;
                    proof {
                        let e = Seq::<TokenView>::empty();
                        let st1 = cur_st(mode, ibuf@, buf@, toks@);
                        assert(tokens_view(toks@) =~= tokens_view(toks0) + e);
                        assert(lex_step(s@, i0, st0) == Ok::<_, LexErrorView>((e, st1, i as int)))
                            by {
                            reveal(lex_step);
                        }
                        lemma_loop_step(s@, nn, i0, st0, st1, e, i as int, tokens_view(toks0));
                    }
                }
            },
            Mode::Normal => {
                match c {
                    ' ' | '\n' | '\t' => {
                        flush_buf(&mut toks, &mut buf);
                        i = i + 1;
                        proof {
                            let e = flush_tokens(buf0);
                            let st1 = cur_st(mode, ibuf@, buf@, toks@);
                            assert(lex_step(s@, i0, st0) == Ok::<_, LexErrorView>(
                                (e, st1, i as int),
                            )) by {
                                reveal(lex_step);
                                assert(buf@ =~= Seq::<char>::empty());
                            }
                            lemma_loop_step(s@, nn, i0, st0, st1, e, i as int, tokens_view(toks0));
                        }
                    },
                    '<' => {
                        flush_buf(&mut toks, &mut buf);
                        let ghost mid = toks@;
                        toks.push(Token::Operator(Operators::LessThan));
                        i = i + 1;
                        proof {
                            let fl = flush_tokens(buf0);
                            lemma_append_one(
                                tokens_view(toks0),
                                fl,
                                mid,
                                Token::Operator(Operators::LessThan),
                            );
                            let e = fl + seq![TokenView::Operator(Operators::LessThan)];
                            let st1 = cur_st(mode, ibuf@, buf@, toks@);
                            assert(lex_step(s@, i0, st0) == Ok::<_, LexErrorView>(
                                (e, st1, i as int),
                            )) by {
                                reveal(lex_step);
                                assert(buf@ =~= Seq::<char>::empty());
                            }
                            lemma_loop_step(s@, nn, i0, st0, st1, e, i as int, tokens_view(toks0));
                        }
                    },
                    '>' => {
                        if buf.len() == 1 && buf[0] == '-' {
                            let ghost mid = toks@;
                            toks.push(Token::Delimiter(Delimiter::TypeArrow));
                            buf = Vec::new();
                            i = i + 1;
                            proof {
                                assert(buf0 =~= seq!['-']);
                                let fl = Seq::<TokenView>::empty();
                                assert(tokens_view(mid) == tokens_view(toks0) + fl) by {
                                    assert(tokens_view(mid) =~= tokens_view(toks0) + fl);
                                }
                                lemma_append_one(
                                    tokens_view(toks0),
                                    fl,
                                    mid,
                                    Token::Delimiter(Delimiter::TypeArrow),
                                );
                                let e = fl + seq![TokenView::Delimiter(Delimiter::TypeArrow)];
                                let st1 = cur_st(mode, ibuf@, buf@, toks@);
                                assert(lex_step(s@, i0, st0) == Ok::<_, LexErrorView>(
                                    (e, st1, i as int),
                                )) by {
                                    reveal(lex_step);
                                    assert(buf@ =~= Seq::<char>::empty());
                                }
                                lemma_loop_step(
                                    s@,
                                    nn,
                                    i0,
                                    st0,
                                    st1,
                                    e,
                                    i as int,
                                    tokens_view(toks0),
                                );
                            }
                        } else if buf.len() == 1 && buf[0] == '=' {
                            let ghost mid = toks@;
                            toks.push(Token::Delimiter(Delimiter::FunctionArrow));
                            buf = Vec::new();
                            i = i + 1;
                            proof {
                                assert(buf0 =~= seq!['=']);
                                let fl = Seq::<TokenView>::empty();
                                assert(tokens_view(mid) == tokens_view(toks0) + fl) by {
                                    assert(tokens_view(mid) =~= tokens_view(toks0) + fl);
                                }
                                lemma_append_one(
                                    tokens_view(toks0),
                                    fl,
                                    mid,
                                    Token::Delimiter(Delimiter::FunctionArrow),
                                );
                                let e = fl + seq![TokenView::Delimiter(Delimiter::FunctionArrow)];
                                let st1 = cur_st(mode, ibuf@, buf@, toks@);
                                assert(lex_step(s@, i0, st0) == Ok::<_, LexErrorView>(
                                    (e, st1, i as int),
                                )) by {
                                    reveal(lex_step);
                                    assert(buf@ =~= Seq::<char>::empty());
                                }
                                lemma_loop_step(
                                    s@,
                                    nn,
                                    i0,
                                    st0,
                                    st1,
                                    e,
                                    i as int,
                                    tokens_view(toks0),
                                );
                            }
                        } else {
                            flush_buf(&mut toks, &mut buf);
                            let ghost mid = toks@;
                            toks.push(Token::Operator(Operators::GreaterThan));
                            i = i + 1;
                            proof {
                                assert(buf0 != seq!['-']) by {
                                    if buf0 == seq!['-'] {
                                        assert(buf0.len() == 1 && buf0[0] == '-');
                                    }
                                }
                                assert(buf0 != seq!['=']) by {
                                    if buf0 == seq!['='] {
                                        assert(buf0.len() == 1 && buf0[0] == '=');
                                    }
                                }
                                let fl = flush_tokens(buf0);
                                lemma_append_one(
                                    tokens_view(toks0),
                                    fl,
                                    mid,
                                    Token::Operator(Operators::GreaterThan),
                                );
                                let e = fl + seq![TokenView::Operator(Operators::GreaterThan)];
                                let st1 = cur_st(mode, ibuf@, buf@, toks@);
                                assert(lex_step(s@, i0, st0) == Ok::<_, LexErrorView>(
                                    (e, st1, i as int),
                                )) by {
                                    reveal(lex_step);
                                    assert(buf@ =~= Seq::<char>::empty());
                                }
                                lemma_loop_step(
                                    s@,
                                    nn,
                                    i0,
                                    st0,
                                    st1,
                                    e,
                                    i as int,
                                    tokens_view(toks0),
                                );
                            }
                        }
                    },
                    '{' | '}' | '(' | ')' | '[' | ']' | ';' | ',' => {
                        flush_buf(&mut toks, &mut buf);
                        let d = if c == '{' {
                            Delimiter::OpenObject
                        } else if c == '}' {
                            Delimiter::CloseObject
                        } else if c == '(' {
                            Delimiter::OpenSequence
                        } else if c == ')' {
                            Delimiter::CloseSequence
                        } else if c == '[' {
                            Delimiter::OpenArray
                        } else if c == ']' {
                            Delimiter::CloseArray
                        } else if c == ';' {
                            Delimiter::Semicolon
                        } else {
                            Delimiter::Comma
                        };
                        let ghost mid = toks@;
                        toks.push(Token::Delimiter(d));
                        i = i + 1;
                        proof {
                            let fl = flush_tokens(buf0);
                            lemma_append_one(tokens_view(toks0), fl, mid, Token::Delimiter(d));
                            let e = fl + seq![TokenView::Delimiter(d)];
                            let st1 = cur_st(mode, ibuf@, buf@, toks@);
                            assert(lex_step(s@, i0, st0) == Ok::<_, LexErrorView>(
                                (e, st1, i as int),
                            )) by {
                                reveal(lex_step);
                                assert(buf@ =~= Seq::<char>::empty());
                            }
                            lemma_loop_step(s@, nn, i0, st0, st1, e, i as int, tokens_view(toks0));
                        }
                    },
                    '+' | '*' | '/' => {
                        flush_buf(&mut toks, &mut buf);
                        let o = if c == '+' {
                            Operators::Add
                        } else if c == '*' {
                            Operators::Multiply
                        } else {
                            Operators::Divide
                        };
                        let ghost mid = toks@;
                        toks.push(Token::Operator(o));
                        i = i + 1;
                        proof {
                            let fl = flush_tokens(buf0);
                            lemma_append_one(tokens_view(toks0), fl, mid, Token::Operator(o));
                            let e = fl + seq![TokenView::Operator(o)];
                            let st1 = cur_st(mode, ibuf@, buf@, toks@);
                            assert(lex_step(s@, i0, st0) == Ok::<_, LexErrorView>(
                                (e, st1, i as int),
                            )) by {
                                reveal(lex_step);
                                assert(buf@ =~= Seq::<char>::empty());
                            }
                            lemma_loop_step(s@, nn, i0, st0, st1, e, i as int, tokens_view(toks0));
                        }
                    },
                    '=' => {
                        if i + 1 >= n {
                            proof {
                                assert(lex_step(s@, i0, st0) == Err::<
                                    (Seq<TokenView>, LexSt, int),
                                    _,
                                >(LexErrorView::UnexpectedEof { offset: i0 })) by {
                                    reveal(lex_step);
                                }
                            }
                            return Err(LexError::UnexpectedEof { offset: i });
                        }
                        let la = s[i + 1];
                        flush_buf(&mut toks, &mut buf);
                        if la == '>' {
                            buf.push('=');
                            i = i + 1;
                            proof {
                                let e = flush_tokens(buf0);
                                let st1 = cur_st(mode, ibuf@, buf@, toks@);
                                assert(buf@ =~= seq!['=']);
                                assert(lex_step(s@, i0, st0) == Ok::<_, LexErrorView>(
                                    (e, st1, i as int),
                                )) by {
                                    reveal(lex_step);
                                }
                                lemma_loop_step(
                                    s@,
                                    nn,
                                    i0,
                                    st0,
                                    st1,
                                    e,
                                    i as int,
                                    tokens_view(toks0),
                                );
                            }
                        } else if la == '=' {
                            let ghost mid = toks@;
                            toks.push(Token::Operator(Operators::Equals));
                            i = i + 1;
                            proof {
                                let fl = flush_tokens(buf0);
                                lemma_append_one(
                                    tokens_view(toks0),
                                    fl,
                                    mid,
                                    Token::Operator(Operators::Equals),
                                );
                                let e = fl + seq![TokenView::Operator(Operators::Equals)];
                                let st1 = cur_st(mode, ibuf@, buf@, toks@);
                                assert(lex_step(s@, i0, st0) == Ok::<_, LexErrorView>(
                                    (e, st1, i as int),
                                )) by {
                                    reveal(lex_step);
                                    assert(buf@ =~= Seq::<char>::empty());
                                }
                                lemma_loop_step(
                                    s@,
                                    nn,
                                    i0,
                                    st0,
                                    st1,
                                    e,
                                    i as int,
                                    tokens_view(toks0),
                                );
                            }
                        } else {
                            let last_is_equals: bool = if toks.len() > 0 {
                                match &toks[toks.len() - 1] {
                                    Token::Operator(Operators::Equals) => true,
                                    _ => false,
                                }
                            } else {
                                false
                            };
                            let ghost last1 = after_emit(last_view(toks0), flush_tokens(buf0));
                            proof {
                                assert(last_view(toks@) == last1);
                                assert(last_is_equals == is_equals_last(last1));
                            }
                            let ghost mid = toks@;
                            if !last_is_equals {
                                toks.push(Token::Operator(Operators::Assign));
                            }
                            i = i + 1;
                            proof {
                                let fl = flush_tokens(buf0);
                                let e = if is_equals_last(last1) {
                                    fl
                                } else {
                                    fl + seq![TokenView::Operator(Operators::Assign)]
                                };
                                if !last_is_equals {
                                    lemma_append_one(
                                        tokens_view(toks0),
                                        fl,
                                        mid,
                                        Token::Operator(Operators::Assign),
                                    );
                                }
                                let st1 = cur_st(mode, ibuf@, buf@, toks@);
                                assert(lex_step(s@, i0, st0) == Ok::<_, LexErrorView>(
                                    (e, st1, i as int),
                                )) by {
                                    reveal(lex_step);
                                    assert(buf@ =~= Seq::<char>::empty());
                                }
                                lemma_loop_step(
                                    s@,
                                    nn,
                                    i0,
                                    st0,
                                    st1,
                                    e,
                                    i as int,
                                    tokens_view(toks0),
                                );
                            }
                        }
                    },
                    '-' => {
                        if i + 1 >= n {
                            proof {
                                assert(lex_step(s@, i0, st0) == Err::<
                                    (Seq<TokenView>, LexSt, int),
                                    _,
                                >(LexErrorView::UnexpectedEof { offset: i0 })) by {
                                    reveal(lex_step);
                                }
                            }
                            return Err(LexError::UnexpectedEof { offset: i });
                        }
                        let la = s[i + 1];
                        flush_buf(&mut toks, &mut buf);
                        if la == '>' {
                            buf.push('-');
                            i = i + 1;
                            proof {
                                let e = flush_tokens(buf0);
                                let st1 = cur_st(mode, ibuf@, buf@, toks@);
                                assert(buf@ =~= seq!['-']);
                                assert(lex_step(s@, i0, st0) == Ok::<_, LexErrorView>(
                                    (e, st1, i as int),
                                )) by {
                                    reveal(lex_step);
                                }
                                lemma_loop_step(
                                    s@,
                                    nn,
                                    i0,
                                    st0,
                                    st1,
                                    e,
                                    i as int,
                                    tokens_view(toks0),
                                );
                            }
                        } else {
                            let ghost mid = toks@;
                            toks.push(Token::Operator(Operators::Subtract));
                            i = i + 1;
                            proof {
                                let fl = flush_tokens(buf0);
                                lemma_append_one(
                                    tokens_view(toks0),
                                    fl,
                                    mid,
                                    Token::Operator(Operators::Subtract),
                                );
                                let e = fl + seq![TokenView::Operator(Operators::Subtract)];
                                let st1 = cur_st(mode, ibuf@, buf@, toks@);
                                assert(lex_step(s@, i0, st0) == Ok::<_, LexErrorView>(
                                    (e, st1, i as int),
                                )) by {
                                    reveal(lex_step);
                                    assert(buf@ =~= Seq::<char>::empty());
                                }
                                lemma_loop_step(
                                    s@,
                                    nn,
                                    i0,
                                    st0,
                                    st1,
                                    e,
                                    i as int,
                                    tokens_view(toks0),
                                );
                            }
                        }
                    },
                    '.' => {
                        if i + 1 >= n {
                            proof {
                                assert(lex_step(s@, i0, st0) == Err::<
                                    (Seq<TokenView>, LexSt, int),
                                    _,
                                >(LexErrorView::UnexpectedEof { offset: i0 })) by {
                                    reveal(lex_step);
                                }
                            }
                            return Err(LexError::UnexpectedEof { offset: i });
                        }
                        let la = s[i + 1];
                        let is_int = crate::numeric::parse_i64_chars(&buf).is_some();
                        let la_alpha = ('a' <= la && la <= 'z') || ('A' <= la && la <= 'Z');
                        if is_int && !la_alpha {
                            buf.push('.');
                            i = i + 1;
                            proof {
                                let e = Seq::<TokenView>::empty();
                                let st1 = cur_st(mode, ibuf@, buf@, toks@);
                                assert(tokens_view(toks@) =~= tokens_view(toks0) + e);
                                assert(lex_step(s@, i0, st0) == Ok::<_, LexErrorView>(
                                    (e, st1, i as int),
                                )) by {
                                    reveal(lex_step);
                                }
                                lemma_loop_step(
                                    s@,
                                    nn,
                                    i0,
                                    st0,
                                    st1,
                                    e,
                                    i as int,
                                    tokens_view(toks0),
                                );
                            }
                        } else {
                            flush_buf(&mut toks, &mut buf);
                            let ghost mid = toks@;
                            toks.push(Token::Delimiter(Delimiter::ObjectSeparator));
                            i = i + 1;
                            proof {
                                let fl = flush_tokens(buf0);
                                lemma_append_one(
                                    tokens_view(toks0),
                                    fl,
                                    mid,
                                    Token::Delimiter(Delimiter::ObjectSeparator),
                                );
                                let e = fl + seq![TokenView::Delimiter(Delimiter::ObjectSeparator)];
                                let st1 = cur_st(mode, ibuf@, buf@, toks@);
                                assert(lex_step(s@, i0, st0) == Ok::<_, LexErrorView>(
                                    (e, st1, i as int),
                                )) by {
                                    reveal(lex_step);
                                    assert(buf@ =~= Seq::<char>::empty());
                                }
                                lemma_loop_step(
                                    s@,
                                    nn,
                                    i0,
                                    st0,
                                    st1,
                                    e,
                                    i as int,
                                    tokens_view(toks0),
                                );
                            }
                        }
                    },
                    ':' => {
                        if i + 1 >= n {
                            proof {
                                assert(lex_step(s@, i0, st0) == Err::<
                                    (Seq<TokenView>, LexSt, int),
                                    _,
                                >(LexErrorView::UnexpectedEof { offset: i0 })) by {
                                    reveal(lex_step);
                                }
                            }
                            return Err(LexError::UnexpectedEof { offset: i });
                        }
                        let la = s[i + 1];
                        flush_buf(&mut toks, &mut buf);
                        if la == ':' {
                            buf.push(':');
                            buf.push(':');
                        }
                        i = i + 1;
                        proof {
                            let e = flush_tokens(buf0);
                            let st1 = cur_st(mode, ibuf@, buf@, toks@);
                            if la == ':' {
                                assert(buf@ =~= seq![':', ':']);
                            } else {
                                assert(buf@ =~= Seq::<char>::empty());
                            }
                            assert(lex_step(s@, i0, st0) == Ok::<_, LexErrorView>(
                                (e, st1, i as int),
                            )) by {
                                reveal(lex_step);
                            }
                            lemma_loop_step(s@, nn, i0, st0, st1, e, i as int, tokens_view(toks0));
                        }
                    },
                    '"' => {
                        flush_buf(&mut toks, &mut buf);
                        let ghost mid = toks@;
                        toks.push(Token::Delimiter(Delimiter::OpenString));
                        mode = Mode::InString { start: i };
                        i = i + 1;
                        proof {
                            let fl = flush_tokens(buf0);
                            lemma_append_one(
                                tokens_view(toks0),
                                fl,
                                mid,
                                Token::Delimiter(Delimiter::OpenString),
                            );
                            let e = fl + seq![TokenView::Delimiter(Delimiter::OpenString)];
                            let st1 = cur_st(mode, ibuf@, buf@, toks@);
                            assert(lex_step(s@, i0, st0) == Ok::<_, LexErrorView>(
                                (e, st1, i as int),
                            )) by {
                                reveal(lex_step);
                                assert(buf@ =~= Seq::<char>::empty());
                            }
                            lemma_loop_step(s@, nn, i0, st0, st1, e, i as int, tokens_view(toks0));
                        }
                    },
                    _ => {
                        buf.push(c);
                        i = i + 1;
                        proof {
                            let e = Seq::<TokenView>::empty();
                            let st1 = cur_st(mode, ibuf@, buf@, toks@);
                            assert(tokens_view(toks@) =~= tokens_view(toks0) + e);
                            assert(lex_step(s@, i0, st0) == Ok::<_, LexErrorView>(
                                (e, st1, i as int),
                            )) by {
                                reveal(lex_step);
                            }
                            lemma_loop_step(s@, nn, i0, st0, st1, e, i as int, tokens_view(toks0));
                        }
                    },
                }
            },
        }
    }
    proof {
        assert(lex_run(s@, i as int, nn, cur_st(mode, ibuf@, buf@, toks@)) == Ok::<
            _,
            LexErrorView,
        >((Seq::<TokenView>::empty(), cur_st(mode, ibuf@, buf@, toks@), i as int)));
    }
    match mode {
        Mode::Normal => {
            let ghost toks0 = toks@;
            let ghost buf0 = buf@;
            if buf.len() > 0 {
                let t = classify_chars(&buf);
                toks.push(t);
            }
            proof {
                assert(tokens_view(toks@) =~= tokens_view(toks0) + flush_tokens(buf0));
            }
            Ok(toks)
        },
        Mode::InString { start } => Err(LexError::UnterminatedLiteral { start_offset: start }),
        Mode::InInterp { string_start, interp_start } => Err(
            LexError::UnterminatedLiteral { start_offset: interp_start },
        ),
    }
}

} // verus!
