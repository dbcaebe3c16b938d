//! The comment stripper: per physical line, everything from the first `//`
//! on is removed and the line is trimmed (both ends after a comment,
//! leading whitespace only otherwise); a single newline is re-inserted
//! after each processed line. No state carries across lines; a `//` inside
//! a string literal is not protected.

use crate::chars::chars_to_string;
use crate::chars::str_to_chars;
use vstd::prelude::*;

verus! {

/// The whitespace that line trimming removes.
pub open spec fn is_space_char(c: char) -> bool {
    c == ' ' || c == '\t' || c == '\r'
}

pub open spec fn trim_start_sp(l: Seq<char>) -> Seq<char>
    decreases l.len(),
{
    if l.len() > 0 && is_space_char(l[0]) {
        trim_start_sp(l.skip(1))
    } else {
        l
    }
}

pub open spec fn trim_end_sp(l: Seq<char>) -> Seq<char>
    decreases l.len(),
{
    if l.len() > 0 && is_space_char(l.last()) {
        trim_end_sp(l.drop_last())
    } else {
        l
    }
}

/// Index of the first `//`, or the length when there is none.
pub open spec fn find_comment(l: Seq<char>) -> int
    decreases l.len(),
{
    if l.len() < 2 {
        l.len() as int
    } else if l[0] == '/' && l[1] == '/' {
        0
    } else {
        1 + find_comment(l.skip(1))
    }
}

/// Index of the first newline, or the length when there is none.
pub open spec fn find_newline(s: Seq<char>) -> int
    decreases s.len(),
{
    if s.len() == 0 {
        0
    } else if s[0] == '\n' {
        0
    } else {
        1 + find_newline(s.skip(1))
    }
}

/// One processed line: any trailing carriage return dropped, then either
/// the text before the first `//` trimmed on both ends, or, with no
/// comment, the whole line with leading whitespace removed.
pub open spec fn strip_line(line: Seq<char>) -> Seq<char> {
    let l = if line.len() > 0 && line.last() == '\r' {
        line.drop_last()
    } else {
        line
    };
    let k = find_comment(l);
    if k < l.len() {
        trim_end_sp(trim_start_sp(l.take(k)))
    } else {
        trim_start_sp(l)
    }
}

/// The whole stripped text: each line processed, a newline after each.
pub open spec fn strip_comments(s: Seq<char>) -> Seq<char>
    decreases s.len()
    via strip_comments_decreases
{
    if s.len() == 0 {
        Seq::empty()
    } else {
        let k = find_newline(s);
        if k < s.len() {
            strip_line(s.take(k)) + seq!['\n'] + strip_comments(s.skip(k + 1))
        } else {
            strip_line(s) + seq!['\n']
        }
    }
}

pub proof fn lemma_find_newline_char(s: Seq<char>)
    ensures
        0 <= find_newline(s) <= s.len(),
        forall|j: int| 0 <= j < find_newline(s) ==> #[trigger] s[j] != '\n',
        find_newline(s) < s.len() ==> s[find_newline(s)] == '\n',
    decreases s.len(),
{
    if s.len() == 0 {
    } else if s[0] == '\n' {
    } else {
        lemma_find_newline_char(s.skip(1));
        assert forall|j: int| 0 <= j < find_newline(s) implies #[trigger] s[j] != '\n' by {
            if j > 0 {
                assert(s.skip(1)[j - 1] == s[j]);
            }
        }
        if find_newline(s) < s.len() {
            assert(s.skip(1)[find_newline(s) - 1] == s[find_newline(s)]);
        }
    }
}

/// The first newline is exactly where scanning says it is.
pub proof fn lemma_find_newline_at(s: Seq<char>, q: int)
    requires
        0 <= q <= s.len(),
        forall|j: int| 0 <= j < q ==> #[trigger] s[j] != '\n',
        q < s.len() ==> s[q] == '\n',
    ensures
        find_newline(s) == q,
{
    lemma_find_newline_char(s);
    if find_newline(s) < q {
        assert(s[find_newline(s)] != '\n');
    }
    if q < find_newline(s) {
        assert(s[q] != '\n');
    }
}

pub proof fn lemma_find_comment_char(l: Seq<char>)
    ensures
        0 <= find_comment(l) <= l.len(),
        forall|j: int|
            0 <= j < find_comment(l) && j + 1 < l.len() ==> !(#[trigger] l[j] == '/' && l[j + 1]
                == '/'),
        find_comment(l) < l.len() ==> find_comment(l) + 1 < l.len() && l[find_comment(l)] == '/'
            && l[find_comment(l) + 1] == '/',
    decreases l.len(),
{
    if l.len() < 2 {
    } else if l[0] == '/' && l[1] == '/' {
    } else {
        lemma_find_comment_char(l.skip(1));
        assert forall|j: int|
            0 <= j < find_comment(l) && j + 1 < l.len() implies !(#[trigger] l[j] == '/' && l[j
            + 1] == '/') by {
            if j > 0 {
                assert(l.skip(1)[j - 1] == l[j]);
                assert(l.skip(1)[j] == l[j + 1]);
            }
        }
        if find_comment(l) < l.len() {
            assert(l.skip(1)[find_comment(l) - 1] == l[find_comment(l)]);
            assert(l.skip(1)[find_comment(l)] == l[find_comment(l) + 1]);
        }
    }
}

pub proof fn lemma_find_comment_at(l: Seq<char>, k: int)
    requires
        0 <= k <= l.len(),
        forall|j: int| 0 <= j < k ==> !(#[trigger] l[j] == '/' && l[j + 1] == '/'),
        k < l.len() ==> k + 1 < l.len() && l[k] == '/' && l[k + 1] == '/',
        k == l.len() || k + 1 < l.len(),
    ensures
        find_comment(l) == k || (k == l.len() && find_comment(l) == l.len()),
        k < l.len() ==> find_comment(l) == k,
        k == l.len() ==> find_comment(l) == l.len(),
{
    lemma_find_comment_char(l);
    if k < l.len() {
        if find_comment(l) < k {
            assert(!(l[find_comment(l)] == '/' && l[find_comment(l) + 1] == '/'));
        }
        if k < find_comment(l) {
        }
    } else {
        if find_comment(l) < l.len() {
            assert(!(l[find_comment(l)] == '/' && l[find_comment(l) + 1] == '/'));
        }
    }
}

/// Skipping the counted run of leading whitespace is exactly what
/// `trim_start_sp` does.
pub proof fn lemma_trim_start_at(l: Seq<char>, a: int)
    requires
        0 <= a <= l.len(),
        forall|j: int| 0 <= j < a ==> is_space_char(#[trigger] l[j]),
        a < l.len() ==> !is_space_char(l[a]),
    ensures
        trim_start_sp(l) == l.skip(a),
    decreases a,
{
    if a == 0 {
        assert(l.skip(0) =~= l);
    } else {
        assert(is_space_char(l[0]));
        lemma_trim_start_at(l.skip(1), a - 1);
        assert(l.skip(1).skip(a - 1) =~= l.skip(a));
    }
}

/// Cutting the counted run of trailing whitespace is exactly what
/// `trim_end_sp` does.
pub proof fn lemma_trim_end_at(l: Seq<char>, b: int)
    requires
        0 <= b <= l.len(),
        forall|j: int| b <= j < l.len() ==> is_space_char(#[trigger] l[j]),
        b > 0 ==> !is_space_char(l[b - 1]),
    ensures
        trim_end_sp(l) == l.take(b),
    decreases l.len() - b,
{
    if b == l.len() {
        assert(l.take(b) =~= l);
    } else {
        assert(is_space_char(l.last()));
        lemma_trim_end_at(l.drop_last(), b);
        assert(l.drop_last().take(b) =~= l.take(b));
    }
}

#[via_fn]
proof fn strip_comments_decreases(s: Seq<char>) {
    if s.len() > 0 {
        lemma_find_newline_char(s);
    }
}

/// One processed line, as a character vector covering `l[from..to)`.
fn strip_line_range(l: &Vec<char>, from: usize, to: usize, out: &mut Vec<char>)
    requires
        from <= to <= l@.len(),
    ensures
        final(out)@ == old(out)@ + strip_line(l@.subrange(from as int, to as int)),
{
    let ghost line = l@.subrange(from as int, to as int);
    // Drop one trailing carriage return, as splitting on newlines leaves it.
    let to2: usize = if to > from && l[to - 1] == '\r' {
        to - 1
    } else {
        to
    };
    let ghost lv = l@.subrange(from as int, to2 as int);
    proof {
        if to > from && l@[to - 1] == '\r' {
            assert(lv =~= line.drop_last());
        } else {
            assert(lv =~= line);
        }
    }
    // Find the first `//`.
    let mut k: usize = from;
    while to2 - k > 1 && !(l[k] == '/' && l[k + 1] == '/')
        invariant
            from <= k <= to2 <= l@.len(),
            forall|j: int| from <= j < k ==> !(#[trigger] l@[j] == '/' && l@[j + 1] == '/'),
        decreases to2 - k,
    {
        k = k + 1;
    }
    let found = to2 - k > 1;
    proof {
        if found {
            assert(lv[k - from] == '/' && lv[k - from + 1] == '/');
            assert forall|j: int| 0 <= j < k - from implies !(#[trigger] lv[j] == '/' && lv[j + 1]
                == '/') by {
                assert(lv[j] == l@[from + j]);
                assert(lv[j + 1] == l@[from + j + 1]);
            }
            lemma_find_comment_at(lv, k - from);
        } else {
            assert forall|j: int| 0 <= j < lv.len() implies !(#[trigger] lv[j] == '/' && j + 1
                < lv.len() && lv[j + 1] == '/') by {
                if j + 1 < lv.len() {
                    assert(lv[j] == l@[from + j]);
                    assert(lv[j + 1] == l@[from + j + 1]);
                }
            }
            assert forall|j: int| 0 <= j < lv.len() implies !(#[trigger] lv[j] == '/' && lv[j + 1]
                == '/') || j + 1 >= lv.len() by {}
            lemma_find_comment_char(lv);
            if find_comment(lv) < lv.len() {
                assert(!(lv[find_comment(lv)] == '/' && lv[find_comment(lv) + 1] == '/'));
            }
            assert(find_comment(lv) == lv.len());
        }
    }
    // The region to trim: before the comment when found, the line otherwise.
    let q: usize = if found {
        k
    } else {
        to2
    };
    let ghost region = l@.subrange(from as int, q as int);
    proof {
        if found {
            assert(region =~= lv.take(k - from));
        } else {
            assert(region =~= lv);
        }
    }
    // Leading whitespace.
    let mut a: usize = from;
    while a < q && (l[a] == ' ' || l[a] == '\t' || l[a] == '\r')
        invariant
            from <= a <= q <= l@.len(),
            forall|j: int| from <= j < a ==> is_space_char(#[trigger] l@[j]),
        decreases q - a,
    {
        a = a + 1;
    }
    proof {
        assert forall|j: int| 0 <= j < a - from implies is_space_char(#[trigger] region[j]) by {
            assert(region[j] == l@[from + j]);
        }
        if a < q {
            assert(region[a - from] == l@[a as int]);
        }
        lemma_trim_start_at(region, a - from);
    }
    // Trailing whitespace, only in the comment case.
    let b: usize = if found {
        let mut b: usize = q;
        while b > a && (l[b - 1] == ' ' || l[b - 1] == '\t' || l[b - 1] == '\r')
            invariant
                a <= b <= q <= l@.len(),
                forall|j: int| b <= j < q ==> is_space_char(#[trigger] l@[j]),
            decreases b - a,
        {
            b = b - 1;
        }
        b
    } else {
        q
    };
    proof {
        let trimmed = region.skip(a - from);
        if found {
            assert forall|j: int| b - a <= j < trimmed.len() implies is_space_char(
                #[trigger] trimmed[j],
            ) by {
                assert(trimmed[j] == l@[a + j]);
            }
            if b > a {
                assert(trimmed[b - a - 1] == l@[b - 1]);
            }
            lemma_trim_end_at(trimmed, b - a);
            assert(strip_line(line) == trimmed.take(b - a));
        } else {
            assert(strip_line(line) == trimmed);
        }
    }
    // Copy the kept region.
    let ghost out0 = out@;
    let mut m: usize = a;
    while m < b
        invariant
            a <= m <= b <= l@.len(),
            out@ == out0 + l@.subrange(a as int, m as int),
        decreases b - m,
    {
        let c = l[m];
        out.push(c);
        m = m + 1;
        proof {
            assert(out@ =~= out0 + l@.subrange(a as int, m as int));
        }
    }
    proof {
        assert(out@ =~= out0 + l@.subrange(a as int, b as int));
        let trimmed = region.skip(a - from);
        if found {
            assert(l@.subrange(a as int, b as int) =~= trimmed.take(b - a));
        } else {
            assert(l@.subrange(a as int, b as int) =~= trimmed);
        }
    }
}

/// Removes `//` comments and leading whitespace per line, re-inserting one
/// newline after each processed line.
pub fn remove_comments(source_code: &str) -> (r: String)
    ensures
        r@ == strip_comments(source_code@),
{
    let cs = str_to_chars(source_code);
    let n = cs.len();
    let mut out: Vec<char> = Vec::new();
    let mut start: usize = 0;
    let mut j: usize = 0;
    proof {
        assert(cs@.skip(0) =~= cs@);
        assert(out@ + strip_comments(cs@) =~= strip_comments(cs@));
    }
    while j < n
        invariant
            n == cs@.len(),
            cs@ == source_code@,
            start <= j <= n,
            forall|m: int| start <= m < j ==> #[trigger] cs@[m] != '\n',
            strip_comments(cs@) == out@ + strip_comments(cs@.skip(start as int)),
        decreases n - j,
    {
        let c = cs[j];
        if c == '\n' {
            let ghost out0 = out@;
            let ghost rest = cs@.skip(start as int);
            strip_line_range(&cs, start, j, &mut out);
            out.push('\n');
            proof {
                assert forall|m: int| 0 <= m < j - start implies #[trigger] rest[m] != '\n' by {
                    assert(rest[m] == cs@[start + m]);
                }
                assert(rest[j - start] == '\n');
                lemma_find_newline_at(rest, j - start);
                assert(rest.take(j - start) =~= cs@.subrange(start as int, j as int));
                assert(rest.skip(j - start + 1) =~= cs@.skip(j + 1));
                assert(out@ =~= out0 + (strip_line(cs@.subrange(start as int, j as int)) + seq![
                    '\n',
                ]));
                assert(out@ + strip_comments(cs@.skip(j + 1)) =~= out0 + strip_comments(
                    cs@.skip(start as int),
                ));
            }
            start = j + 1;
            j = j + 1;
        } else {
            j = j + 1;
        }
    }
    if start < n {
        // A trailing line without a final newline.
        let ghost out0 = out@;
        let ghost rest = cs@.skip(start as int);
        strip_line_range(&cs, start, n, &mut out);
        out.push('\n');
        proof {
            assert forall|m: int| 0 <= m < rest.len() implies #[trigger] rest[m] != '\n' by {
                assert(rest[m] == cs@[start + m]);
            }
            lemma_find_newline_at(rest, rest.len() as int);
            assert(rest =~= cs@.subrange(start as int, n as int));
            assert(strip_comments(rest) == strip_line(rest) + seq!['\n']);
            assert(out@ =~= out0 + strip_comments(rest));
        }
    } else {
        proof {
            assert(cs@.skip(start as int).len() == 0);
            assert(out@ =~= out@ + strip_comments(cs@.skip(start as int)));
        }
    }
    chars_to_string(&out)
}

} // verus!
