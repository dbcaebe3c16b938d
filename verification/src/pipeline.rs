//! The dispatcher: tokenizes each chunk as an independent unit of work and
//! concatenates the per-chunk token sequences in original source order.
//! Errors surface with the chunk index and the offset inside that chunk.

use crate::chunks::chunk_views;
use crate::chunks::code_chunckenizer;
use crate::chunks::spec_chunks;
use crate::lexer::tokenize;
use crate::machine::lex_all;
use crate::strip::remove_comments;
use crate::strip::strip_comments;
use crate::token::LexError;
use crate::token::LexErrorView;
use crate::token::Token;
use crate::token::TokenView;
use crate::token::tokens_view;
use vstd::prelude::*;

verus! {

/// A lexical error located in a chunk list.
#[derive(Debug, Clone, Copy, PartialEq, Eq, Structural)]
pub struct SourceLexError {
    /// Which chunk, in original source order, failed to tokenize.
    pub chunk_index: usize,
    /// The error inside that chunk, with its offset local to the chunk.
    pub error: LexError,
}

/// The tokens of a chunk list: the concatenation of each chunk's tokens in
/// order, or the first failing chunk's index and error.
pub open spec fn lex_chunks(cs: Seq<Seq<char>>) -> Result<Seq<TokenView>, (int, LexErrorView)>
    decreases cs.len(),
{
    if cs.len() == 0 {
        Ok(Seq::empty())
    } else {
        match lex_all(cs[0]) {
            Err(e) => Err((0, e)),
            Ok(t) => match lex_chunks(cs.skip(1)) {
                Err((ix, e)) => Err((ix + 1, e)),
                Ok(rest) => Ok(t + rest),
            },
        }
    }
}

/// Tokenizes each chunk and joins the results in submission order.
pub fn tokenize_chunks(chunks: Vec<String>) -> (r: Result<Vec<Token>, SourceLexError>)
    ensures
        ({
            let spec_r = lex_chunks(chunk_views(chunks@));
            match r {
                Ok(v) => spec_r == Ok::<Seq<TokenView>, (int, LexErrorView)>(tokens_view(v@)),
                Err(e) => spec_r == Err::<Seq<TokenView>, (int, LexErrorView)>(
                    (e.chunk_index as int, e.error@),
                ),
            }
        }),
{
    let n = chunks.len();
    let mut out: Vec<Token> = Vec::new();
    let mut k: usize = 0;
    proof {
        assert(chunk_views(chunks@).skip(0) =~= chunk_views(chunks@));
        assert(tokens_view(out@) =~= Seq::<TokenView>::empty());
    }
    while k < n
        invariant
            n == chunks@.len(),
            k <= n,
            lex_chunks(chunk_views(chunks@)) == (match lex_chunks(
                chunk_views(chunks@).skip(k as int),
            ) {
                Ok(t) => Ok::<Seq<TokenView>, (int, LexErrorView)>(tokens_view(out@) + t),
                Err((ix, e)) => Err::<Seq<TokenView>, (int, LexErrorView)>((ix + k, e)),
            }),
        decreases n - k,
    {
        let ghost out0 = out@;
        let ghost rest = chunk_views(chunks@).skip(k as int);
        let chunk = chunks[k].clone();
        proof {
            assert(rest[0] == chunks@[k as int]@);
        }
        match tokenize(chunk) {
            Err(e) => {
                proof {
                    assert(lex_all(rest[0]) == Err::<Seq<TokenView>, LexErrorView>(e@));
                    assert(lex_chunks(rest) == Err::<Seq<TokenView>, (int, LexErrorView)>(
                        (0, e@),
                    ));
                }
                return Err(SourceLexError { chunk_index: k, error: e });
            },
            Ok(mut ts) => {
                let ghost tsv = tokens_view(ts@);
                out.append(&mut ts);
                k = k + 1;
                proof {
                    assert(lex_all(rest[0]) == Ok::<Seq<TokenView>, LexErrorView>(tsv));
                    assert(rest.skip(1) =~= chunk_views(chunks@).skip(k as int));
                    assert(tokens_view(out@) =~= tokens_view(out0) + tsv);
                    match lex_chunks(chunk_views(chunks@).skip(k as int)) {
                        Ok(t) => {
                            assert(tokens_view(out0) + (tsv + t) =~= tokens_view(out@) + t);
                        },
                        Err(e) => {},
                    }
                }
            },
        }
    }
    proof {
        assert(chunk_views(chunks@).skip(n as int).len() == 0);
    }
    Ok(out)
}

/// The whole pipeline over raw source text: strip comments, chunk, then
/// tokenize each chunk and merge in source order.
pub fn tokenize_source(source: &str) -> (r: Result<Vec<Token>, SourceLexError>)
    ensures
        ({
            let spec_r = lex_chunks(spec_chunks(strip_comments(source@)));
            match r {
                Ok(v) => spec_r == Ok::<Seq<TokenView>, (int, LexErrorView)>(tokens_view(v@)),
                Err(e) => spec_r == Err::<Seq<TokenView>, (int, LexErrorView)>(
                    (e.chunk_index as int, e.error@),
                ),
            }
        }),
{
    let stripped = remove_comments(source);
    let chunks = code_chunckenizer(stripped);
    tokenize_chunks(chunks)
}

} // verus!
