//! The mathematical model of the lexer core: a character-at-a-time state
//! machine. `lex_step` gives the transition for one character, `lex_run`
//! iterates it over a region of the input, and `lex_all` adds the
//! end-of-input handling. The executable lexer is proved to implement
//! `lex_all`, and the ordering laws are proved about `lex_run`.

use crate::classify::classify;
use crate::numeric::is_alpha_char;
use crate::numeric::spec_parse_i64;
use crate::token::Delimiter;
use crate::token::LexErrorView;
use crate::token::Operators;
use crate::token::TokenView;
use vstd::prelude::*;

verus! {

/// The lexer's mode. Offsets are positions in the text the machine runs
/// over; the interpolation mode carries its own buffer, so a mode change
/// can never leak interpolation text.
#[verifier::ext_equal]
pub ghost enum LexMode {
    Normal,
    InString { start: int },
    InInterp { string_start: int, interp_start: int, ibuf: Seq<char> },
}

/// The running state between two characters: the mode, the pending buffer
/// of not-yet-classified characters, and the most recently emitted token.
#[verifier::ext_equal]
pub ghost struct LexSt {
    pub mode: LexMode,
    pub buf: Seq<char>,
    pub last: Option<TokenView>,
}

pub open spec fn init_st() -> LexSt {
    LexSt { mode: LexMode::Normal, buf: Seq::empty(), last: None }
}

/// What flushing the pending buffer emits: nothing when it is empty, its
/// classification otherwise.
pub open spec fn flush_tokens(buf: Seq<char>) -> Seq<TokenView> {
    if buf.len() == 0 {
        Seq::empty()
    } else {
        seq![classify(buf)]
    }
}

/// What closing over accumulated string-literal text emits.
pub open spec fn literal_tokens(buf: Seq<char>) -> Seq<TokenView> {
    if buf.len() == 0 {
        Seq::empty()
    } else {
        seq![TokenView::LiteralString(buf)]
    }
}

/// The most recently emitted token after appending `emitted`.
pub open spec fn after_emit(last: Option<TokenView>, emitted: Seq<TokenView>) -> Option<
    TokenView,
> {
    if emitted.len() == 0 {
        last
    } else {
        Some(emitted.last())
    }
}

/// Whether the most recently emitted token is the `==` operator; the only
/// question the machine ever asks of it.
pub open spec fn is_equals_last(last: Option<TokenView>) -> bool {
    last matches Some(TokenView::Operator(Operators::Equals))
}

/// One transition: the tokens it emits, the state it moves to, and the
/// position after the consumed character or characters; or the error it
/// dies with.
#[verifier::opaque]
pub open spec fn lex_step(s: Seq<char>, i: int, st: LexSt) -> Result<
    (Seq<TokenView>, LexSt, int),
    LexErrorView,
> {
    let c = s[i];
    match st.mode {
        LexMode::InInterp { string_start, interp_start, ibuf } => {
            if c == '}' {
                let emitted = seq![
                    TokenView::Identifier(ibuf),
                    TokenView::Delimiter(Delimiter::CloseInterpolation),
                ];
                Ok(
                    (
                        emitted,
                        LexSt {
                            mode: LexMode::InString { start: string_start },
                            buf: st.buf,
                            last: after_emit(st.last, emitted),
                        },
                        i + 1,
                    ),
                )
            } else {
                Ok(
                    (
                        Seq::empty(),
                        LexSt {
                            mode: LexMode::InInterp {
                                string_start,
                                interp_start,
                                ibuf: ibuf.push(c),
                            },
                            buf: st.buf,
                            last: st.last,
                        },
                        i + 1,
                    ),
                )
            }
        },
        LexMode::InString { start } => {
            if c == '"' {
                let emitted = literal_tokens(st.buf) + seq![
                    TokenView::Delimiter(Delimiter::CloseString),
                ];
                Ok(
                    (
                        emitted,
                        LexSt {
                            mode: LexMode::Normal,
                            buf: Seq::empty(),
                            last: after_emit(st.last, emitted),
                        },
                        i + 1,
                    ),
                )
            } else if c == '$' {
                if i + 1 >= s.len() {
                    Err(LexErrorView::UnexpectedEof { offset: i })
                } else if s[i + 1] == '{' {
                    let emitted = literal_tokens(st.buf) + seq![
                        TokenView::Delimiter(Delimiter::OpenInterpolation),
                    ];
                    Ok(
                        (
                            emitted,
                            LexSt {
                                mode: LexMode::InInterp {
                                    string_start: start,
                                    interp_start: i,
                                    ibuf: Seq::empty(),
                                },
                                buf: Seq::empty(),
                                last: after_emit(st.last, emitted),
                            },
                            i + 2,
                        ),
                    )
                } else {
                    Ok(
                        (
                            Seq::empty(),
                            LexSt { mode: st.mode, buf: st.buf.push('$'), last: st.last },
                            i + 1,
                        ),
                    )
                }
            } else if c == '\\' {
                if i + 1 >= s.len() {
                    Err(LexErrorView::UnexpectedEof { offset: i })
                } else {
                    let e = s[i + 1];
                    let buf2 = if e == '"' {
                        st.buf.push('"')
                    } else if e == '\\' {
                        st.buf.push('\\')
                    } else if e == 'n' {
                        st.buf.push('\n')
                    } else if e == 't' {
                        st.buf.push('\t')
                    } else {
                        // An unrecognized escape is dropped.
                        st.buf
                    };
                    Ok((Seq::empty(), LexSt { mode: st.mode, buf: buf2, last: st.last }, i + 2))
                }
            } else if c == '\n' || c == '\t' {
                Ok((Seq::empty(), st, i + 1))
            } else {
                Ok(
                    (
                        Seq::empty(),
                        LexSt { mode: st.mode, buf: st.buf.push(c), last: st.last },
                        i + 1,
                    ),
                )
            }
        },
        LexMode::Normal => {
            if c == ' ' || c == '\n' || c == '\t' {
                let emitted = flush_tokens(st.buf);
                Ok(
                    (
                        emitted,
                        LexSt {
                            mode: LexMode::Normal,
                            buf: Seq::empty(),
                            last: after_emit(st.last, emitted),
                        },
                        i + 1,
                    ),
                )
            } else if c == '<' {
                let emitted = flush_tokens(st.buf) + seq![
                    TokenView::Operator(Operators::LessThan),
                ];
                Ok(
                    (
                        emitted,
                        LexSt {
                            mode: LexMode::Normal,
                            buf: Seq::empty(),
                            last: after_emit(st.last, emitted),
                        },
                        i + 1,
                    ),
                )
            } else if c == '>' {
                let emitted = if st.buf == seq!['-'] {
                    seq![TokenView::Delimiter(Delimiter::TypeArrow)]
                } else if st.buf == seq!['='] {
                    seq![TokenView::Delimiter(Delimiter::FunctionArrow)]
                } else {
                    flush_tokens(st.buf) + seq![TokenView::Operator(Operators::GreaterThan)]
                };
                Ok(
                    (
                        emitted,
                        LexSt {
                            mode: LexMode::Normal,
                            buf: Seq::empty(),
                            last: after_emit(st.last, emitted),
                        },
                        i + 1,
                    ),
                )
            } else if c == '{' || c == '}' || c == '(' || c == ')' || c == '[' || c == ']' || c
                == ';' || c == ',' {
                let d = if c == '{' {
                    Delimiter::OpenObject
                } else if c == '}' {
                    Delimiter::CloseObject
                } else if c == '(' {
                    Delimiter::OpenSequence
                } else if c == ')' {
                    Delimiter::CloseSequence
                } else if c == '[' {
                    Delimiter::OpenArray
                } else if c == ']' {
                    Delimiter::CloseArray
                } else if c == ';' {
                    Delimiter::Semicolon
                } else {
                    Delimiter::Comma
                };
                let emitted = flush_tokens(st.buf) + seq![TokenView::Delimiter(d)];
                Ok(
                    (
                        emitted,
                        LexSt {
                            mode: LexMode::Normal,
                            buf: Seq::empty(),
                            last: after_emit(st.last, emitted),
                        },
                        i + 1,
                    ),
                )
            } else if c == '+' || c == '*' || c == '/' {
                let o = if c == '+' {
                    Operators::Add
                } else if c == '*' {
                    Operators::Multiply
                } else {
                    Operators::Divide
                };
                let emitted = flush_tokens(st.buf) + seq![TokenView::Operator(o)];
                Ok(
                    (
                        emitted,
                        LexSt {
                            mode: LexMode::Normal,
                            buf: Seq::empty(),
                            last: after_emit(st.last, emitted),
                        },
                        i + 1,
                    ),
                )
            } else if c == '=' {
                if i + 1 >= s.len() {
                    Err(LexErrorView::UnexpectedEof { offset: i })
                } else if s[i + 1] == '>' {
                    let emitted = flush_tokens(st.buf);
                    Ok(
                        (
                            emitted,
                            LexSt {
                                mode: LexMode::Normal,
                                buf: seq!['='],
                                last: after_emit(st.last, emitted),
                            },
                            i + 1,
                        ),
                    )
                } else if s[i + 1] == '=' {
                    let emitted = flush_tokens(st.buf) + seq![
                        TokenView::Operator(Operators::Equals),
                    ];
                    Ok(
                        (
                            emitted,
                            LexSt {
                                mode: LexMode::Normal,
                                buf: Seq::empty(),
                                last: after_emit(st.last, emitted),
                            },
                            i + 1,
                        ),
                    )
                } else {
                    // The second `=` of a just-emitted `==` is skipped, so
                    // visiting both characters emits the operator once.
                    let last1 = after_emit(st.last, flush_tokens(st.buf));
                    let emitted = if is_equals_last(last1) {
                        flush_tokens(st.buf)
                    } else {
                        flush_tokens(st.buf) + seq![TokenView::Operator(Operators::Assign)]
                    };
                    Ok(
                        (
                            emitted,
                            LexSt {
                                mode: LexMode::Normal,
                                buf: Seq::empty(),
                                last: after_emit(st.last, emitted),
                            },
                            i + 1,
                        ),
                    )
                }
            } else if c == '-' {
                if i + 1 >= s.len() {
                    Err(LexErrorView::UnexpectedEof { offset: i })
                } else if s[i + 1] == '>' {
                    let emitted = flush_tokens(st.buf);
                    Ok(
                        (
                            emitted,
                            LexSt {
                                mode: LexMode::Normal,
                                buf: seq!['-'],
                                last: after_emit(st.last, emitted),
                            },
                            i + 1,
                        ),
                    )
                } else {
                    let emitted = flush_tokens(st.buf) + seq![
                        TokenView::Operator(Operators::Subtract),
                    ];
                    Ok(
                        (
                            emitted,
                            LexSt {
                                mode: LexMode::Normal,
                                buf: Seq::empty(),
                                last: after_emit(st.last, emitted),
                            },
                            i + 1,
                        ),
                    )
                }
            } else if c == '.' {
                if i + 1 >= s.len() {
                    Err(LexErrorView::UnexpectedEof { offset: i })
                } else {
                    // A dot extends an integer buffer into a float lexeme
                    // unless the next character is alphabetic; otherwise it
                    // is the object separator.
                    let extends_float = spec_parse_i64(st.buf) is Some && !is_alpha_char(
                        s[i + 1],
                    );
                    if extends_float {
                        Ok(
                            (
                                Seq::empty(),
                                LexSt {
                                    mode: LexMode::Normal,
                                    buf: st.buf.push('.'),
                                    last: st.last,
                                },
                                i + 1,
                            ),
                        )
                    } else {
                        let emitted = flush_tokens(st.buf) + seq![
                            TokenView::Delimiter(Delimiter::ObjectSeparator),
                        ];
                        Ok(
                            (
                                emitted,
                                LexSt {
                                    mode: LexMode::Normal,
                                    buf: Seq::empty(),
                                    last: after_emit(st.last, emitted),
                                },
                                i + 1,
                            ),
                        )
                    }
                }
            } else if c == ':' {
                if i + 1 >= s.len() {
                    Err(LexErrorView::UnexpectedEof { offset: i })
                } else {
                    let emitted = flush_tokens(st.buf);
                    let buf2 = if s[i + 1] == ':' {
                        seq![':', ':']
                    } else {
                        // A lone colon is dropped.
                        Seq::<char>::empty()
                    };
                    Ok(
                        (
                            emitted,
                            LexSt {
                                mode: LexMode::Normal,
                                buf: buf2,
                                last: after_emit(st.last, emitted),
                            },
                            i + 1,
                        ),
                    )
                }
            } else if c == '"' {
                let emitted = flush_tokens(st.buf) + seq![
                    TokenView::Delimiter(Delimiter::OpenString),
                ];
                Ok(
                    (
                        emitted,
                        LexSt {
                            mode: LexMode::InString { start: i },
                            buf: Seq::empty(),
                            last: after_emit(st.last, emitted),
                        },
                        i + 1,
                    ),
                )
            } else {
                Ok(
                    (
                        Seq::empty(),
                        LexSt { mode: st.mode, buf: st.buf.push(c), last: st.last },
                        i + 1,
                    ),
                )
            }
        },
    }
}

/// Prepends already-emitted tokens to the outcome of the rest of a run.
pub open spec fn emit_then(
    emitted: Seq<TokenView>,
    r: Result<(Seq<TokenView>, LexSt, int), LexErrorView>,
) -> Result<(Seq<TokenView>, LexSt, int), LexErrorView> {
    match r {
        Ok((t, st, pos)) => Ok((emitted + t, st, pos)),
        Err(e) => Err(e),
    }
}

/// A step consumes one or two characters.
pub proof fn lemma_lex_step_advance(s: Seq<char>, i: int, st: LexSt)
    ensures
        match lex_step(s, i, st) {
            Ok((emitted, st2, i2)) => i + 1 <= i2 <= i + 2,
            Err(e) => true,
        },
{
    reveal(lex_step);
}

/// Runs the machine from position `i` until the position reaches `end`.
/// Yields the emitted tokens, the final state, and the final position,
/// which exceeds `end` by one exactly when a two-character step crossed it.
pub open spec fn lex_run(s: Seq<char>, i: int, end: int, st: LexSt) -> Result<
    (Seq<TokenView>, LexSt, int),
    LexErrorView,
>
    decreases end + 1 - i
    via lex_run_decreases
{
    if i >= end {
        Ok((Seq::empty(), st, i))
    } else {
        match lex_step(s, i, st) {
            Err(e) => Err(e),
            Ok((emitted, st2, i2)) => emit_then(emitted, lex_run(s, i2, end, st2)),
        }
    }
}

#[via_fn]
proof fn lex_run_decreases(s: Seq<char>, i: int, end: int, st: LexSt) {
    if i < end {
        lemma_lex_step_advance(s, i, st);
    }
}

/// End-of-input handling: in normal mode the pending buffer is flushed; an
/// open string or interpolation span is an error.
pub open spec fn finish_run(t: Seq<TokenView>, st: LexSt) -> Result<Seq<TokenView>, LexErrorView> {
    match st.mode {
        LexMode::Normal => Ok(t + flush_tokens(st.buf)),
        LexMode::InString { start } => Err(LexErrorView::UnterminatedLiteral {
            start_offset: start,
        }),
        LexMode::InInterp { string_start, interp_start, ibuf } => Err(
            LexErrorView::UnterminatedLiteral { start_offset: interp_start },
        ),
    }
}

/// The token sequence of a whole text, or its first lexical error.
pub open spec fn lex_all(s: Seq<char>) -> Result<Seq<TokenView>, LexErrorView> {
    match lex_run(s, 0, s.len() as int, init_st()) {
        Ok((t, st, pos)) => finish_run(t, st),
        Err(e) => Err(e),
    }
}

pub proof fn lemma_emit_then_empty(r: Result<(Seq<TokenView>, LexSt, int), LexErrorView>)
    ensures
        emit_then(Seq::empty(), r) == r,
{
    match r {
        Ok((t, st, pos)) => {
            assert(Seq::empty() + t =~= t);
        },
        Err(e) => {},
    }
}

pub proof fn lemma_emit_then_assoc(
    a: Seq<TokenView>,
    b: Seq<TokenView>,
    r: Result<(Seq<TokenView>, LexSt, int), LexErrorView>,
)
    ensures
        emit_then(a, emit_then(b, r)) == emit_then(a + b, r),
{
    match r {
        Ok((t, st, pos)) => {
            assert(a + (b + t) =~= (a + b) + t);
        },
        Err(e) => {},
    }
}

/// Running to `end` equals running to a midpoint and continuing from the
/// position where that run stopped.
pub proof fn lemma_lex_run_compose(s: Seq<char>, i: int, mid: int, end: int, st: LexSt)
    requires
        i <= mid <= end,
    ensures
        lex_run(s, i, end, st) == (match lex_run(s, i, mid, st) {
            Err(e) => Err::<(Seq<TokenView>, LexSt, int), LexErrorView>(e),
            Ok((t, st2, pos)) => emit_then(t, lex_run(s, pos, end, st2)),
        }),
    decreases end + 1 - i,
{
    if i >= mid {
        lemma_emit_then_empty(lex_run(s, i, end, st));
    } else {
        match lex_step(s, i, st) {
            Err(e) => {},
            Ok((emitted, st2, i2)) => {
                lemma_lex_step_advance(s, i, st);
                if i2 <= mid {
                    lemma_lex_run_compose(s, i2, mid, end, st2);
                    match lex_run(s, i2, mid, st2) {
                        Err(e) => {},
                        Ok((t2, st3, pos3)) => {
                            lemma_emit_then_assoc(emitted, t2, lex_run(s, pos3, end, st3));
                        },
                    }
                } else {
                    // The step crossed the midpoint: the run to `mid` stops
                    // right here, and the whole run continues from i2.
                    assert(lex_run(s, i2, mid, st2) == Ok::<_, LexErrorView>(
                        (Seq::<TokenView>::empty(), st2, i2),
                    ));
                    assert(emitted + Seq::<TokenView>::empty() =~= emitted);
                }
            },
        }
    }
}

} // verus!
