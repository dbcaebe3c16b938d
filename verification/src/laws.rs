//! Laws of the lexer: tokenizing a whole text equals tokenizing its chunks
//! in order, inserting whitespace between tokens does not change the token
//! sequence, a `->` always lexes as one arrow, and a buffer classifies as
//! a keyword only by exact match. The ordering proofs rest on a simulation
//! argument: the machine's behaviour at shifted positions is the same up
//! to offset bookkeeping.

use crate::chunks::chunk_run;
use crate::chunks::spec_chunks;
use crate::classify::classify;
use crate::machine::LexMode;
use crate::machine::LexSt;
use crate::machine::after_emit;
use crate::machine::emit_then;
use crate::machine::flush_tokens;
use crate::machine::init_st;
use crate::machine::is_equals_last;
use crate::machine::lemma_emit_then_assoc;
use crate::machine::lemma_lex_run_compose;
use crate::machine::lemma_lex_step_advance;
use crate::machine::lex_all;
use crate::machine::lex_run;
use crate::machine::lex_step;
use crate::numeric::is_alpha_char;
use crate::pipeline::lex_chunks;
use crate::token::Delimiter;
use crate::token::Keywords;
use crate::token::LexErrorView;
use crate::token::TokenView;
use vstd::prelude::*;

verus! {

/// A mode with its recorded offsets moved by `d`.
pub open spec fn shift_mode(m: LexMode, d: int) -> LexMode {
    match m {
        LexMode::Normal => LexMode::Normal,
        LexMode::InString { start } => LexMode::InString { start: start + d },
        LexMode::InInterp { string_start, interp_start, ibuf } => LexMode::InInterp {
            string_start: string_start + d,
            interp_start: interp_start + d,
            ibuf,
        },
    }
}

/// An error with its offset moved by `d`.
pub open spec fn shift_err(e: LexErrorView, d: int) -> LexErrorView {
    match e {
        LexErrorView::UnexpectedEof { offset } => LexErrorView::UnexpectedEof {
            offset: offset + d,
        },
        LexErrorView::UnterminatedLiteral { start_offset } => LexErrorView::UnterminatedLiteral {
            start_offset: start_offset + d,
        },
    }
}

/// The machine reads its memory of the last token only through this
/// question, so two runs whose answers agree transition alike.
pub open spec fn equiv_last(l1: Option<TokenView>, l2: Option<TokenView>) -> bool {
    is_equals_last(l1) == is_equals_last(l2)
}

/// One step taken at shifted positions: the same characters produce the
/// same tokens and related states.
proof fn lemma_lex_step_shift(a: Seq<char>, b: Seq<char>, d: int, j: int, sta: LexSt, stb: LexSt)
    requires
        0 <= j < a.len(),
        0 <= j + d < b.len(),
        b[j + d] == a[j],
        a[j] == ';' || ((j + 1 < a.len()) == (j + d + 1 < b.len()) && (j + 1 < a.len() ==> b[j + d
            + 1] == a[j + 1])),
        stb.mode == shift_mode(sta.mode, d),
        stb.buf == sta.buf,
        equiv_last(sta.last, stb.last),
    ensures
        match (lex_step(a, j, sta), lex_step(b, j + d, stb)) {
            (Ok((e1, st1, p1)), Ok((e2, st2, p2))) => {
                &&& e2 == e1
                &&& st2.mode == shift_mode(st1.mode, d)
                &&& st2.buf == st1.buf
                &&& equiv_last(st1.last, st2.last)
                &&& p2 == p1 + d
            },
            (Err(e1), Err(e2)) => e2 == shift_err(e1, d),
            _ => false,
        },
{
    reveal(lex_step);
}

/// A run taken at shifted positions: the same characters produce the same
/// tokens, with final state and errors shifted. The look-ahead at the far
/// boundary must agree on both sides, unless the region's last character is
/// `;`, which never looks ahead.
pub proof fn lemma_lex_run_shift(
    a: Seq<char>,
    b: Seq<char>,
    d: int,
    j: int,
    end: int,
    sta: LexSt,
    stb: LexSt,
)
    requires
        0 <= j <= end,
        end <= a.len(),
        0 <= j + d,
        end + d <= b.len(),
        forall|m: int| j <= m < end ==> b[m + d] == #[trigger] a[m],
        (end == a.len() && end + d == b.len()) || ((end < a.len()) == (end + d < b.len()) && (end
            < a.len() ==> b[end + d] == a[end])) || (end > j && a[end - 1] == ';'),
        stb.mode == shift_mode(sta.mode, d),
        stb.buf == sta.buf,
        equiv_last(sta.last, stb.last),
    ensures
        match (lex_run(a, j, end, sta), lex_run(b, j + d, end + d, stb)) {
            (Ok((t1, st1, p1)), Ok((t2, st2, p2))) => {
                &&& t2 == t1
                &&& st2.mode == shift_mode(st1.mode, d)
                &&& st2.buf == st1.buf
                &&& equiv_last(st1.last, st2.last)
                &&& p2 == p1 + d
            },
            (Err(e1), Err(e2)) => e2 == shift_err(e1, d),
            _ => false,
        },
    decreases end - j,
{
    if j >= end {
    } else {
        lemma_lex_step_shift(a, b, d, j, sta, stb);
        lemma_lex_step_advance(a, j, sta);
        match (lex_step(a, j, sta), lex_step(b, j + d, stb)) {
            (Ok((e1, st1, p1)), Ok((e2, st2, p2))) => {
                if p1 < end {
                    lemma_lex_run_shift(a, b, d, p1, end, st1, st2);
                } else {
                    // The step reached or crossed the boundary; both runs
                    // stop here with the states the step produced.
                }
            },
            (Err(e1), Err(e2)) => {},
            _ => {
                assert(false);
            },
        }
    }
}

/// A run over a region whose last character is `;` can only end in normal
/// mode by taking that `;` as a statement terminator: the buffer comes out
/// empty and the last token is the semicolon.
proof fn lemma_run_semicolon_end(
    c: Seq<char>,
    j: int,
    st: LexSt,
    t: Seq<TokenView>,
    stf: LexSt,
    p: int,
)
    requires
        0 <= j < c.len(),
        c[c.len() - 1] == ';',
        lex_run(c, j, c.len() as int, st) == Ok::<(Seq<TokenView>, LexSt, int), LexErrorView>(
            (t, stf, p),
        ),
        stf.mode is Normal,
    ensures
        stf.buf == Seq::<char>::empty(),
        stf.last == Some(TokenView::Delimiter(Delimiter::Semicolon)),
        p == c.len(),
    decreases c.len() - j,
{
    let end = c.len() as int;
    lemma_lex_step_advance(c, j, st);
    match lex_step(c, j, st) {
        Err(e) => {
            assert(false);
        },
        Ok((e1, st2, j2)) => {
            if j2 < end {
                match lex_run(c, j2, end, st2) {
                    Ok((t2, stf2, p2)) => {
                        assert(stf2 == stf && p2 == p);
                        lemma_run_semicolon_end(c, j2, st2, t2, stf, p);
                    },
                    Err(e) => {
                        assert(false);
                    },
                }
            } else {
                // This was the final step; the rest of the run is empty, so
                // the state it produced is the final state.
                assert(stf == st2 && p == j2);
                reveal(lex_step);
                if j2 == j + 1 {
                    // One character consumed: it is the closing `;`.
                    assert(c[j] == ';');
                    assert((flush_tokens(st.buf) + seq![
                        TokenView::Delimiter(Delimiter::Semicolon),
                    ]).last() == TokenView::Delimiter(Delimiter::Semicolon));
                } else {
                    // A two-character step happens only inside a string or
                    // an interpolation span and stays there.
                    assert(false);
                }
            }
        },
    }
}

/// The first `;` at or after `i` that the chunker's flag sees outside a
/// string, or the length when there is none.
pub open spec fn first_split(s: Seq<char>, i: int, inside: bool) -> int
    decreases s.len() - i,
{
    if i < 0 || i >= s.len() {
        s.len() as int
    } else if s[i] == '"' {
        first_split(s, i + 1, !inside)
    } else if s[i] == ';' && !inside {
        i
    } else {
        first_split(s, i + 1, inside)
    }
}

/// The chunker's output, split at the first top-level `;`.
proof fn lemma_chunk_run_split(s: Seq<char>, i: int, inside: bool, cbuf: Seq<char>)
    requires
        0 <= i <= s.len(),
    ensures
        ({
            let q = first_split(s, i, inside);
            &&& i <= q <= s.len()
            &&& (q < s.len() ==> s[q] == ';' && chunk_run(s, i, inside, cbuf) == seq![
                cbuf + s.subrange(i, q + 1),
            ] + chunk_run(s, q + 1, false, Seq::<char>::empty()))
            &&& (q == s.len() && (cbuf + s.skip(i)).len() > 0 ==> chunk_run(s, i, inside, cbuf)
                == seq![cbuf + s.skip(i)])
            &&& (q == s.len() && (cbuf + s.skip(i)).len() == 0 ==> chunk_run(s, i, inside, cbuf)
                == Seq::<Seq<char>>::empty())
        }),
    decreases s.len() - i,
{
    let q = first_split(s, i, inside);
    if i >= s.len() {
        if (cbuf + s.skip(i)).len() > 0 {
            assert(cbuf + s.skip(i) =~= cbuf);
            assert(chunk_run(s, i, inside, cbuf) =~= seq![cbuf + s.skip(i)]);
        } else {
            assert(cbuf.len() == 0);
        }
    } else if s[i] == '"' {
        lemma_chunk_run_split(s, i + 1, !inside, cbuf.push('"'));
        if q < s.len() {
            assert(cbuf.push('"') + s.subrange(i + 1, q + 1) =~= cbuf + s.subrange(i, q + 1));
        } else {
            assert(cbuf.push('"') + s.skip(i + 1) =~= cbuf + s.skip(i));
        }
    } else if s[i] == ';' && !inside {
        assert(q == i);
        assert(cbuf.push(';') =~= cbuf + s.subrange(i, i + 1));
    } else {
        lemma_chunk_run_split(s, i + 1, inside, cbuf.push(s[i]));
        if q < s.len() {
            assert(cbuf.push(s[i]) + s.subrange(i + 1, q + 1) =~= cbuf + s.subrange(i, q + 1));
        } else {
            assert(cbuf.push(s[i]) + s.skip(i + 1) =~= cbuf + s.skip(i));
        }
    }
}

/// The chunker's run depends only on the text from its position on.
proof fn lemma_chunk_run_skip(s: Seq<char>, d: int, i: int, inside: bool, cbuf: Seq<char>)
    requires
        0 <= d <= i <= s.len(),
    ensures
        chunk_run(s, i, inside, cbuf) == chunk_run(s.skip(d), i - d, inside, cbuf),
    decreases s.len() - i,
{
    if i >= s.len() {
    } else {
        assert(s.skip(d)[i - d] == s[i]);
        if s[i] == '"' {
            lemma_chunk_run_skip(s, d, i + 1, !inside, cbuf.push('"'));
        } else if s[i] == ';' && !inside {
            lemma_chunk_run_skip(s, d, i + 1, inside, Seq::<char>::empty());
        } else {
            lemma_chunk_run_skip(s, d, i + 1, inside, cbuf.push(s[i]));
        }
    }
}

/// Whether lexing a chunk on its own runs through and ends outside any
/// string literal or interpolation span — the hypothesis under which chunk
/// boundaries are transparent to the lexer.
pub open spec fn chunk_lexes_to_normal(c: Seq<char>) -> bool {
    match lex_run(c, 0, c.len() as int, init_st()) {
        Ok((t, st, p)) => st.mode is Normal,
        Err(e) => false,
    }
}

/// Order preservation: when every chunk boundary the chunker picks falls
/// outside any string literal — each chunk, lexed on its own, runs through
/// and ends in normal mode — tokenizing the whole text equals
/// concatenating the tokens of its chunks in order.
pub proof fn lemma_order_preservation(s: Seq<char>)
    requires
        forall|k: int|
            0 <= k < spec_chunks(s).len() ==> chunk_lexes_to_normal(
                #[trigger] spec_chunks(s)[k],
            ),
    ensures
        lex_chunks(spec_chunks(s)) is Ok,
        lex_chunks(spec_chunks(s)) matches Ok(t) ==> lex_all(s) == Ok::<
            Seq<TokenView>,
            LexErrorView,
        >(t),
    decreases s.len(),
{
    let cs = spec_chunks(s);
    let n = s.len() as int;
    lemma_chunk_run_split(s, 0, false, Seq::<char>::empty());
    let q = first_split(s, 0, false);
    if s.len() == 0 {
        assert(cs == Seq::<Seq<char>>::empty());
        assert(lex_all(s) == Ok::<Seq<TokenView>, LexErrorView>(
            Seq::<TokenView>::empty() + flush_tokens(Seq::<char>::empty()),
        ));
        assert(Seq::<TokenView>::empty() + flush_tokens(Seq::<char>::empty())
            =~= Seq::<TokenView>::empty());
    } else if q == n {
        // A single trailing chunk: the whole text.
        assert(Seq::<char>::empty() + s.skip(0) =~= s);
        assert(cs == seq![s]);
        assert(cs[0] == s);
        assert(chunk_lexes_to_normal(s));
        match lex_run(s, 0, n, init_st()) {
            Ok((t0, st0, p0)) => {
                assert(lex_all(s) == Ok::<Seq<TokenView>, LexErrorView>(
                    t0 + flush_tokens(st0.buf),
                ));
                assert(cs.skip(1) =~= Seq::<Seq<char>>::empty());
                assert(lex_chunks(cs.skip(1)) == Ok::<Seq<TokenView>, (int, LexErrorView)>(
                    Seq::<TokenView>::empty(),
                ));
                assert((t0 + flush_tokens(st0.buf)) + Seq::<TokenView>::empty() =~= t0
                    + flush_tokens(st0.buf));
            },
            Err(e) => {
                assert(false);
            },
        }
    } else {
        // A chunk ending at the `;` at position q, then the rest.
        let c0 = s.subrange(0, q + 1);
        let rest = s.skip(q + 1);
        assert(Seq::<char>::empty() + c0 =~= c0);
        assert(cs == seq![c0] + chunk_run(s, q + 1, false, Seq::<char>::empty()));
        lemma_chunk_run_skip(s, q + 1, q + 1, false, Seq::<char>::empty());
        let cs1 = spec_chunks(rest);
        assert(cs == seq![c0] + cs1);
        assert(cs[0] == c0);
        assert(chunk_lexes_to_normal(c0));
        assert(c0.len() == q + 1);
        assert(c0[q] == ';');
        match lex_run(c0, 0, q + 1, init_st()) {
            Ok((t0, st0, p0)) => {
                lemma_run_semicolon_end(c0, 0, init_st(), t0, st0, p0);
                assert(lex_all(c0) == Ok::<Seq<TokenView>, LexErrorView>(
                    t0 + flush_tokens(st0.buf),
                ));
                assert(t0 + flush_tokens(st0.buf) =~= t0);
                // The same run inside the whole text.
                assert(forall|m: int| 0 <= m < q + 1 ==> s[m + 0] == #[trigger] c0[m]);
                lemma_lex_run_shift(c0, s, 0, 0, q + 1, init_st(), init_st());
                match lex_run(s, 0, q + 1, init_st()) {
                    Ok((t0b, st0b, p0b)) => {
                        assert(t0b == t0 && p0b == q + 1);
                        assert(st0b.mode is Normal);
                        assert(st0b.buf == Seq::<char>::empty());
                        assert(!is_equals_last(st0b.last));
                        lemma_lex_run_compose(s, 0, q + 1, n, init_st());
                        // The chunks of the rest, by induction.
                        assert forall|k: int| 0 <= k < cs1.len() implies chunk_lexes_to_normal(
                            #[trigger] cs1[k],
                        ) by {
                            assert(cs[k + 1] == cs1[k]);
                            assert(chunk_lexes_to_normal(cs[k + 1]));
                        }
                        lemma_order_preservation(rest);
                        match lex_chunks(cs1) {
                            Ok(t1all) => {
                                assert(lex_all(rest) == Ok::<Seq<TokenView>, LexErrorView>(t1all));
                                match lex_run(rest, 0, rest.len() as int, init_st()) {
                                    Ok((t1, st1, p1)) => {
                                        assert(st1.mode is Normal);
                                        assert(t1all == t1 + flush_tokens(st1.buf));
                                        assert(forall|m: int|
                                            0 <= m < rest.len() ==> s[m + (q + 1)]
                                                == #[trigger] rest[m]);
                                        lemma_lex_run_shift(
                                            rest,
                                            s,
                                            q + 1,
                                            0,
                                            rest.len() as int,
                                            init_st(),
                                            st0b,
                                        );
                                        match lex_run(s, q + 1, n, st0b) {
                                            Ok((t1b, st1b, p1b)) => {
                                                assert(t1b == t1);
                                                assert(st1b.mode is Normal);
                                                assert(st1b.buf == st1.buf);
                                                assert(lex_all(s) == Ok::<
                                                    Seq<TokenView>,
                                                    LexErrorView,
                                                >((t0 + t1) + flush_tokens(st1.buf)));
                                                assert(cs.skip(1) =~= cs1);
                                                assert(lex_chunks(cs) == Ok::<
                                                    Seq<TokenView>,
                                                    (int, LexErrorView),
                                                >(t0 + t1all));
                                                assert((t0 + t1) + flush_tokens(st1.buf) =~= t0 + (
                                                t1 + flush_tokens(st1.buf)));
                                            },
                                            Err(e) => {
                                                assert(false);
                                            },
                                        }
                                    },
                                    Err(e) => {
                                        assert(false);
                                    },
                                }
                            },
                            Err(e) => {
                                assert(false);
                            },
                        }
                    },
                    Err(e) => {
                        assert(false);
                    },
                }
            },
            Err(e) => {
                assert(false);
            },
        }
    }
}

/// Multi-character operator precedence: a `-` immediately followed by `>`
/// outside any string always lexes, after the pending buffer's flush, to
/// the single TypeArrow delimiter — never to Subtract followed by
/// GreaterThan.
pub proof fn lemma_type_arrow(s: Seq<char>, i: int, end: int, st: LexSt)
    requires
        st.mode is Normal,
        0 <= i,
        i + 2 <= end,
        end <= s.len(),
        s[i] == '-',
        s[i + 1] == '>',
    ensures
        lex_run(s, i, end, st) == emit_then(
            flush_tokens(st.buf) + seq![TokenView::Delimiter(Delimiter::TypeArrow)],
            lex_run(
                s,
                i + 2,
                end,
                LexSt {
                    mode: LexMode::Normal,
                    buf: Seq::empty(),
                    last: Some(TokenView::Delimiter(Delimiter::TypeArrow)),
                },
            ),
        ),
{
    reveal(lex_step);
    let st1 = LexSt {
        mode: LexMode::Normal,
        buf: seq!['-'],
        last: after_emit(st.last, flush_tokens(st.buf)),
    };
    assert(lex_step(s, i, st) == Ok::<(Seq<TokenView>, LexSt, int), LexErrorView>(
        (flush_tokens(st.buf), st1, i + 1),
    ));
    let st2 = LexSt {
        mode: LexMode::Normal,
        buf: Seq::empty(),
        last: Some(TokenView::Delimiter(Delimiter::TypeArrow)),
    };
    assert(seq![TokenView::Delimiter(Delimiter::TypeArrow)].last() == TokenView::Delimiter(
        Delimiter::TypeArrow,
    ));
    assert(lex_step(s, i + 1, st1) == Ok::<(Seq<TokenView>, LexSt, int), LexErrorView>(
        (seq![TokenView::Delimiter(Delimiter::TypeArrow)], st2, i + 2),
    ));
    assert(lex_run(s, i, end, st) == emit_then(
        flush_tokens(st.buf),
        lex_run(s, i + 1, end, st1),
    ));
    assert(lex_run(s, i + 1, end, st1) == emit_then(
        seq![TokenView::Delimiter(Delimiter::TypeArrow)],
        lex_run(s, i + 2, end, st2),
    ));
    lemma_emit_then_assoc(
        flush_tokens(st.buf),
        seq![TokenView::Delimiter(Delimiter::TypeArrow)],
        lex_run(s, i + 2, end, st2),
    );
}

/// Lockstep run up to an insertion point: the inserted character is only
/// ever seen as look-ahead from the position right before it, and with the
/// splitting cases excluded that look-ahead decides nothing differently.
#[verifier::rlimit(60)]
proof fn lemma_run_prefix_ws(
    a: Seq<char>,
    b: Seq<char>,
    p: int,
    w: char,
    j: int,
    sta: LexSt,
    stb: LexSt,
    t: Seq<TokenView>,
    stf: LexSt,
)
    requires
        0 <= j <= p,
        p <= a.len(),
        b.len() == a.len() + 1,
        p < b.len(),
        forall|m: int| 0 <= m < p ==> b[m] == #[trigger] a[m],
        b[p] == w,
        w == ' ' || w == '\n' || w == '\t',
        !(p > 0 && p < a.len() && a[p - 1] == '=' && a[p] == '='),
        !(p > 0 && p < a.len() && a[p - 1] == '.' && is_alpha_char(a[p])),
        lex_run(a, j, p, sta) == Ok::<(Seq<TokenView>, LexSt, int), LexErrorView>((t, stf, p)),
        stf.mode is Normal,
        stf.buf == Seq::<char>::empty(),
        stb.mode == sta.mode,
        stb.buf == sta.buf,
        equiv_last(sta.last, stb.last),
    ensures
        match lex_run(b, j, p, stb) {
            Ok((t2, stf2, p2)) => {
                &&& t2 == t
                &&& p2 == p
                &&& stf2.mode is Normal
                &&& stf2.buf == Seq::<char>::empty()
                &&& equiv_last(stf.last, stf2.last)
            },
            Err(e) => false,
        },
    decreases p - j,
{
    if j == p {
    } else {
        lemma_lex_step_advance(a, j, sta);
        match lex_step(a, j, sta) {
            Err(e) => {
                assert(false);
            },
            Ok((e1, st1, j1)) => {
                if j1 > p {
                    // The run would end past p, contradicting that it ends
                    // exactly at p.
                    assert(false);
                } else if j < p - 1 {
                    assert(shift_mode(sta.mode, 0) == sta.mode);
                    lemma_lex_step_shift(a, b, 0, j, sta, stb);
                    match lex_step(b, j, stb) {
                        Ok((e2, st2b, j2b)) => {
                            assert(shift_mode(st1.mode, 0) == st1.mode);
                            match lex_run(a, j1, p, st1) {
                                Ok((t1, stf1, p1)) => {
                                    lemma_run_prefix_ws(a, b, p, w, j1, st1, st2b, t1, stf);
                                },
                                Err(e) => {
                                    assert(false);
                                },
                            }
                        },
                        Err(e) => {
                            assert(false);
                        },
                    }
                } else {
                    // j == p - 1: the final step; its look-ahead, if any,
                    // is a[p] on one side and the inserted whitespace on
                    // the other, and the step ends in normal mode with an
                    // empty buffer either way.
                    assert(j1 == p);
                    assert(stf == st1 && t == e1);
                    reveal(lex_step);
                    match lex_step(b, j, stb) {
                        Ok((e2, st2b, j2b)) => {
                            assert(e2 == e1);
                            assert(j2b == p);
                            assert(st2b.mode is Normal);
                            assert(st2b.buf == Seq::<char>::empty());
                            assert(equiv_last(st1.last, st2b.last));
                        },
                        Err(e) => {
                            assert(false);
                        },
                    }
                }
            },
        }
    }
}

/// Idempotent whitespace: inserting a space, newline or tab at a position
/// where the lexer stands between tokens — its run to that position ends
/// there in normal mode with an empty buffer, and the insertion splits
/// neither a two-character operator nor a numeric `.` from what follows —
/// never changes the emitted token sequence, nor whether lexing succeeds.
pub proof fn lemma_whitespace_insertion(
    s: Seq<char>,
    p: int,
    w: char,
    t: Seq<TokenView>,
    st: LexSt,
)
    requires
        0 <= p <= s.len(),
        w == ' ' || w == '\n' || w == '\t',
        lex_run(s, 0, p, init_st()) == Ok::<(Seq<TokenView>, LexSt, int), LexErrorView>(
            (t, st, p),
        ),
        st.mode is Normal,
        st.buf == Seq::<char>::empty(),
        !(p > 0 && p < s.len() && s[p - 1] == '=' && s[p] == '='),
        !(p > 0 && p < s.len() && s[p - 1] == '.' && is_alpha_char(s[p])),
    ensures
        ({
            let s2 = s.take(p) + seq![w] + s.skip(p);
            &&& (lex_all(s2) is Ok) == (lex_all(s) is Ok)
            &&& (lex_all(s) matches Ok(t1) ==> lex_all(s2) == Ok::<Seq<TokenView>, LexErrorView>(
                t1,
            ))
        }),
{
    let s2 = s.take(p) + seq![w] + s.skip(p);
    let n = s.len() as int;
    assert(s2.len() == n + 1);
    assert(forall|m: int| 0 <= m < p ==> s2[m] == #[trigger] s[m]);
    assert(s2[p] == w);
    assert(forall|m: int| p <= m < n ==> s2[m + 1] == #[trigger] s[m]);
    lemma_run_prefix_ws(s, s2, p, w, 0, init_st(), init_st(), t, st);
    match lex_run(s2, 0, p, init_st()) {
        Ok((t2, st2, p2)) => {
            // The inserted whitespace is a step that changes nothing: the
            // buffer is already empty.
            reveal(lex_step);
            assert(lex_step(s2, p, st2) == Ok::<(Seq<TokenView>, LexSt, int), LexErrorView>(
                (Seq::<TokenView>::empty(), st2, p + 1),
            ));
            crate::machine::lemma_emit_then_empty(lex_run(s2, p + 1, n + 1, st2));
            assert(lex_run(s2, p, n + 1, st2) == lex_run(s2, p + 1, n + 1, st2));
            // The suffixes run in lockstep, shifted by one.
            assert(shift_mode(st.mode, 1) == st.mode);
            lemma_lex_run_shift(s, s2, 1, p, n, st, st2);
            lemma_lex_run_compose(s, 0, p, n, init_st());
            lemma_lex_run_compose(s2, 0, p, n + 1, init_st());
            match (lex_run(s, p, n, st), lex_run(s2, p + 1, n + 1, st2)) {
                (Ok((u1, sf1, q1)), Ok((u2, sf2, q2))) => {
                    assert(u2 == u1 && sf2.buf == sf1.buf);
                    assert(lex_run(s, 0, n, init_st()) == Ok::<
                        (Seq<TokenView>, LexSt, int),
                        LexErrorView,
                    >((t + u1, sf1, q1)));
                    assert(lex_run(s2, 0, n + 1, init_st()) == Ok::<
                        (Seq<TokenView>, LexSt, int),
                        LexErrorView,
                    >((t2 + u2, sf2, q2 + 0)));
                    assert(t2 + u2 == t + u1);
                    match sf1.mode {
                        LexMode::Normal => {
                            assert(sf2.mode is Normal);
                        },
                        LexMode::InString { start } => {
                            assert(sf2.mode is InString);
                        },
                        LexMode::InInterp { string_start, interp_start, ibuf } => {
                            assert(sf2.mode is InInterp);
                        },
                    }
                },
                (Err(e1), Err(e2)) => {},
                _ => {
                    assert(false);
                },
            }
        },
        Err(e) => {
            assert(false);
        },
    }
}

/// The exact lexeme of each reserved word.
pub open spec fn keyword_lexeme(k: Keywords) -> Seq<char> {
    match k {
        Keywords::Let => "let"@,
        Keywords::Const => "const"@,
        Keywords::Print => "print"@,
        Keywords::PrintLine => "println"@,
        Keywords::Loop => "loop"@,
        Keywords::While => "while"@,
        Keywords::For => "for"@,
        Keywords::Function => "fn"@,
        Keywords::Type => "type"@,
        Keywords::If => "if"@,
        Keywords::Else => "else"@,
        Keywords::Main => "main"@,
        Keywords::New => "new"@,
        Keywords::Import => "import"@,
        Keywords::StandardLibrary => "std"@,
    }
}

/// Keyword vs identifier: a buffer classifies as a given keyword exactly
/// when it is that keyword's lexeme — there is no partial keyword matching.
#[verifier::rlimit(100)]
pub proof fn lemma_keyword_exact_match(buf: Seq<char>, k: Keywords)
    ensures
        classify(buf) == TokenView::Keyword(k) <==> buf == keyword_lexeme(k),
{
    reveal_strlit("::");
    reveal_strlit("import");
    reveal_strlit("std");
    reveal_strlit("main");
    reveal_strlit("==");
    reveal_strlit("=>");
    reveal_strlit("->");
    reveal_strlit("fn");
    reveal_strlit("type");
    reveal_strlit("const");
    reveal_strlit("let");
    reveal_strlit("int");
    reveal_strlit("uint");
    reveal_strlit("float");
    reveal_strlit("null");
    reveal_strlit("str");
    reveal_strlit("bool");
    reveal_strlit("print");
    reveal_strlit("println");
    reveal_strlit("new");
    reveal_strlit("if");
    reveal_strlit("else");
    reveal_strlit("loop");
    reveal_strlit("while");
    reveal_strlit("for");
    reveal_strlit("+");
    reveal_strlit("-");
    reveal_strlit("*");
    reveal_strlit("/");
    reveal_strlit("=");
    reveal_strlit(";");
}

} // verus!
