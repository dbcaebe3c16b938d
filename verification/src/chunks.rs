//! The chunker: partitions stripped source into independently tokenizable
//! segments, splitting right after each statement-terminating `;` that
//! occurs outside a string literal. The "inside string" flag toggles on
//! every `"` and knows nothing of escapes. A trailing partial chunk is kept
//! when the text does not end in `;`.

use crate::chars::chars_to_string;
use crate::chars::str_to_chars;
use vstd::prelude::*;

verus! {

/// The chunker's run from position `i` with the given flag and partial
/// chunk: the list of chunks still to be produced.
pub open spec fn chunk_run(s: Seq<char>, i: int, inside: bool, cbuf: Seq<char>) -> Seq<Seq<char>>
    decreases s.len() - i,
{
    if i < 0 || i >= s.len() {
        if cbuf.len() > 0 {
            seq![cbuf]
        } else {
            Seq::empty()
        }
    } else if s[i] == '"' {
        chunk_run(s, i + 1, !inside, cbuf.push('"'))
    } else if s[i] == ';' && !inside {
        seq![cbuf.push(';')] + chunk_run(s, i + 1, inside, Seq::empty())
    } else {
        chunk_run(s, i + 1, inside, cbuf.push(s[i]))
    }
}

/// The chunks of a whole text.
pub open spec fn spec_chunks(s: Seq<char>) -> Seq<Seq<char>> {
    chunk_run(s, 0, false, Seq::empty())
}

/// The concatenation of a chunk list.
pub open spec fn concat_chunks(cs: Seq<Seq<char>>) -> Seq<char>
    decreases cs.len(),
{
    if cs.len() == 0 {
        Seq::empty()
    } else {
        cs[0] + concat_chunks(cs.skip(1))
    }
}

proof fn lemma_chunk_run_concat(s: Seq<char>, i: int, inside: bool, cbuf: Seq<char>)
    requires
        0 <= i <= s.len(),
    ensures
        concat_chunks(chunk_run(s, i, inside, cbuf)) == cbuf + s.skip(i),
    decreases s.len() - i,
{
    if i >= s.len() {
        if cbuf.len() > 0 {
            assert(seq![cbuf].skip(1) =~= Seq::<Seq<char>>::empty());
            assert(concat_chunks(Seq::<Seq<char>>::empty()) == Seq::<char>::empty());
            assert(concat_chunks(seq![cbuf]) =~= cbuf + s.skip(i));
        } else {
            assert(concat_chunks(Seq::<Seq<char>>::empty()) =~= cbuf + s.skip(i));
        }
    } else if s[i] == '"' {
        lemma_chunk_run_concat(s, i + 1, !inside, cbuf.push('"'));
        assert(cbuf.push('"') + s.skip(i + 1) =~= cbuf + s.skip(i));
    } else if s[i] == ';' && !inside {
        lemma_chunk_run_concat(s, i + 1, inside, Seq::<char>::empty());
        let rest = chunk_run(s, i + 1, inside, Seq::<char>::empty());
        assert((seq![cbuf.push(';')] + rest).skip(1) =~= rest);
        assert((seq![cbuf.push(';')] + rest)[0] == cbuf.push(';'));
        assert(cbuf.push(';') + (Seq::<char>::empty() + s.skip(i + 1)) =~= cbuf + s.skip(i));
    } else {
        lemma_chunk_run_concat(s, i + 1, inside, cbuf.push(s[i]));
        assert(cbuf.push(s[i]) + s.skip(i + 1) =~= cbuf + s.skip(i));
    }
}

/// Every character of the text stands in exactly one chunk: concatenating
/// the chunks, in order, gives the text back unchanged.
pub proof fn lemma_chunks_cover_source(s: Seq<char>)
    ensures
        concat_chunks(spec_chunks(s)) == s,
{
    lemma_chunk_run_concat(s, 0, false, Seq::<char>::empty());
    assert(Seq::<char>::empty() + s.skip(0) =~= s);
}

/// The model of a chunk list held as strings.
pub open spec fn chunk_views(cs: Seq<String>) -> Seq<Seq<char>> {
    cs.map_values(|c: String| c@)
}

proof fn lemma_chunk_views_push(cs: Seq<String>, c: String, pre: Seq<Seq<char>>)
    requires
        chunk_views(cs) == pre,
    ensures
        chunk_views(cs.push(c)) == pre + seq![c@],
{
    assert(chunk_views(cs.push(c)) =~= pre + seq![c@]);
}

/// Partitions the text into chunks, each ending at a top-level `;`, plus a
/// trailing partial chunk when the text does not end in one.
pub fn code_chunckenizer(code: String) -> (r: Vec<String>)
    ensures
        chunk_views(r@) == spec_chunks(code@),
{
    let cs = str_to_chars(code.as_str());
    let n = cs.len();
    let mut chunks: Vec<String> = Vec::new();
    let mut cbuf: Vec<char> = Vec::new();
    let mut inside = false;
    let mut j: usize = 0;
    proof {
        assert(chunk_views(chunks@) + chunk_run(cs@, 0, false, cbuf@) =~= spec_chunks(code@));
    }
    while j < n
        invariant
            n == cs@.len(),
            cs@ == code@,
            j <= n,
            spec_chunks(code@) == chunk_views(chunks@) + chunk_run(
                cs@,
                j as int,
                inside,
                cbuf@,
            ),
        decreases n - j,
    {
        let ghost chunks0 = chunks@;
        let ghost cbuf0 = cbuf@;
        let c = cs[j];
        if c == '"' {
            cbuf.push('"');
            inside = !inside;
            j = j + 1;
        } else if c == ';' && !inside {
            cbuf.push(';');
            let done = chars_to_string(&cbuf);
            chunks.push(done);
            cbuf = Vec::new();
            j = j + 1;
            proof {
                lemma_chunk_views_push(chunks0, chunks@.last(), chunk_views(chunks0));
                assert(chunk_views(chunks@) + chunk_run(cs@, j as int, inside, cbuf@)
                    =~= chunk_views(chunks0) + (seq![cbuf0.push(';')] + chunk_run(
                    cs@,
                    j as int,
                    inside,
                    Seq::empty(),
                )));
            }
        } else {
            cbuf.push(c);
            j = j + 1;
        }
    }
    if cbuf.len() > 0 {
        let ghost chunks0 = chunks@;
        let done = chars_to_string(&cbuf);
        chunks.push(done);
        proof {
            lemma_chunk_views_push(chunks0, chunks@.last(), chunk_views(chunks0));
            assert(chunk_views(chunks@) =~= chunk_views(chunks0) + seq![cbuf@]);
        }
    } else {
        proof {
            assert(chunk_views(chunks@) =~= chunk_views(chunks@) + chunk_run(
                cs@,
                n as int,
                inside,
                cbuf@,
            ));
        }
    }
    chunks
}

} // verus!
