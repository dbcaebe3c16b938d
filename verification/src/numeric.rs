//! Numeric-literal recognition. A flushed buffer is classified as a signed
//! 64-bit integer first, then as an unsigned 64-bit integer, then as a float
//! lexeme, and only then falls back to an identifier. The grammars here are
//! the ones `i64`, `u64` and `f64` accept from decimal text: an optional
//! sign and decimal digits for the integers, and for floats an optional
//! sign, then `inf`, `infinity` or `nan` (case-insensitive) or a digit
//! string with at most one dot and an optional exponent part.

use vstd::prelude::*;

verus! {

pub open spec fn is_digit_char(c: char) -> bool {
    '0' <= c && c <= '9'
}

pub open spec fn is_alpha_char(c: char) -> bool {
    ('a' <= c && c <= 'z') || ('A' <= c && c <= 'Z')
}

pub open spec fn digit_val(c: char) -> int {
    c as int - '0' as int
}

pub open spec fn all_digits(s: Seq<char>) -> bool {
    forall|j: int| 0 <= j < s.len() ==> is_digit_char(s[j])
}

/// The value of a digit string, most significant digit first.
pub open spec fn digits_val(s: Seq<char>) -> int
    decreases s.len(),
{
    if s.len() == 0 {
        0
    } else {
        digits_val(s.drop_last()) * 10 + digit_val(s.last())
    }
}

/// The value a signed 64-bit decimal parse yields, if any: an optional
/// sign, then at least one digit, with the value in range.
pub open spec fn spec_parse_i64(s: Seq<char>) -> Option<i64> {
    let ds = if s.len() > 0 && (s[0] == '+' || s[0] == '-') {
        s.skip(1)
    } else {
        s
    };
    if ds.len() > 0 && all_digits(ds) {
        let v = if s.len() > 0 && s[0] == '-' {
            -digits_val(ds)
        } else {
            digits_val(ds)
        };
        if i64::MIN <= v <= i64::MAX {
            Some(v as i64)
        } else {
            None
        }
    } else {
        None
    }
}

/// The value an unsigned 64-bit decimal parse yields, if any: an optional
/// `+`, then at least one digit, with the value in range.
pub open spec fn spec_parse_u64(s: Seq<char>) -> Option<u64> {
    let ds = if s.len() > 0 && s[0] == '+' {
        s.skip(1)
    } else {
        s
    };
    if ds.len() > 0 && all_digits(ds) && !(s.len() > 0 && s[0] == '-') {
        let v = digits_val(ds);
        if v <= u64::MAX {
            Some(v as u64)
        } else {
            None
        }
    } else {
        None
    }
}

pub proof fn lemma_digits_val_nonneg(s: Seq<char>)
    requires
        all_digits(s),
    ensures
        digits_val(s) >= 0,
    decreases s.len(),
{
    if s.len() > 0 {
        assert(all_digits(s.drop_last()));
        lemma_digits_val_nonneg(s.drop_last());
        assert(digit_val(s.last()) >= 0);
    }
}

/// Extending a digit string by one digit multiplies its value by ten and
/// adds the digit.
pub proof fn lemma_digits_val_step(s: Seq<char>, j: int)
    requires
        0 <= j < s.len(),
    ensures
        digits_val(s.take(j + 1)) == digits_val(s.take(j)) * 10 + digit_val(s[j]),
{
    assert(s.take(j + 1).drop_last() =~= s.take(j));
    assert(s.take(j + 1).last() == s[j]);
}

/// A digit string is worth at least any of its prefixes.
pub proof fn lemma_digits_val_prefix_le(s: Seq<char>, j: int)
    requires
        all_digits(s),
        0 <= j <= s.len(),
    ensures
        digits_val(s.take(j)) <= digits_val(s),
    decreases s.len() - j,
{
    if j == s.len() {
        assert(s.take(j) =~= s);
    } else {
        lemma_digits_val_step(s, j);
        assert(all_digits(s.take(j)));
        lemma_digits_val_nonneg(s.take(j));
        assert(digits_val(s.take(j + 1)) >= digits_val(s.take(j)));
        lemma_digits_val_prefix_le(s, j + 1);
    }
}

/// Parses a run of decimal digits covering `s[from..]`. Yields the value
/// when the run is nonempty, all digits, and fits in a `u64`.
fn parse_digits_u64(s: &Vec<char>, from: usize) -> (r: Option<u64>)
    requires
        from <= s@.len(),
    ensures
        ({
            let ds = s@.skip(from as int);
            match r {
                Some(v) => ds.len() > 0 && all_digits(ds) && v == digits_val(ds),
                None => !(ds.len() > 0 && all_digits(ds) && digits_val(ds) <= u64::MAX),
            }
        }),
{
    let ghost ds = s@.skip(from as int);
    let n = s.len();
    if from == n {
        return None;
    }
    let mut acc: u64 = 0;
    let mut k: usize = from;
    while k < n
        invariant
            from <= k <= n,
            n == s@.len(),
            from < n,
            ds == s@.skip(from as int),
            all_digits(ds.take(k - from)),
            acc == digits_val(ds.take(k - from)),
        decreases n - k,
    {
        let c = s[k];
        if !('0' <= c && c <= '9') {
            proof {
                assert(ds[k - from] == c);
                assert(!is_digit_char(ds[k - from]));
            }
            return None;
        }
        let d: u64 = (c as u32 - '0' as u32) as u64;
        proof {
            assert(d == digit_val(ds[k - from]));
            lemma_digits_val_step(ds, k - from);
        }
        if acc > (u64::MAX - d) / 10 {
            // The value already exceeds the range; any extension only grows.
            proof {
                assert(acc * 10 + d > u64::MAX) by (nonlinear_arith)
                    requires
                        acc > (u64::MAX - d) / 10,
                        0 <= d <= 9,
                        acc >= 0,
                ;
                assert(all_digits(ds.take(k + 1 - from)));
                lemma_digits_val_prefix_le(ds.take(k + 1 - from), k + 1 - from);
            }
            if !all_digits_from(s, k + 1) {
                proof {
                    assert(!all_digits(ds)) by {
                        assert(!all_digits(s@.skip(k + 1)));
                        let j = choose|j: int|
                            0 <= j < s@.skip(k + 1).len() && !is_digit_char(
                                #[trigger] s@.skip(k + 1)[j],
                            );
                        assert(s@.skip(k + 1)[j] == ds[j + (k + 1 - from)]);
                    }
                }
                return None;
            }
            proof {
                assert(all_digits(ds)) by {
                    assert forall|j: int| 0 <= j < ds.len() implies is_digit_char(ds[j]) by {
                        if j < k + 1 - from {
                            assert(is_digit_char(ds.take(k + 1 - from)[j]));
                        } else {
                            assert(is_digit_char(s@.skip(k + 1)[j - (k + 1 - from)]));
                        }
                    }
                }
                let pre = ds.take(k + 1 - from);
                assert(digits_val(pre) > u64::MAX);
                lemma_digits_val_full_prefix(ds, k + 1 - from);
            }
            return None;
        }
        proof {
            assert(acc * 10 + d <= u64::MAX) by (nonlinear_arith)
                requires
                    acc <= (u64::MAX - d) / 10,
                    0 <= d <= 9,
                    acc >= 0,
            ;
        }
        acc = acc * 10 + d;
        k = k + 1;
        proof {
            assert(all_digits(ds.take(k - from)));
        }
    }
    proof {
        assert(ds.take(n - from as int) =~= ds);
    }
    Some(acc)
}

/// The value of a digit string is at least the value of any prefix; stated
/// through `take` so the overflow argument above can use it directly.
proof fn lemma_digits_val_full_prefix(s: Seq<char>, j: int)
    requires
        all_digits(s),
        0 <= j <= s.len(),
        digits_val(s.take(j)) > u64::MAX,
    ensures
        digits_val(s) > u64::MAX,
{
    lemma_digits_val_prefix_le(s, j);
}

/// True when every character of `s[from..]` is a decimal digit.
fn all_digits_from(s: &Vec<char>, from: usize) -> (b: bool)
    requires
        from <= s@.len(),
    ensures
        b == all_digits(s@.skip(from as int)),
{
    let n = s.len();
    let mut k: usize = from;
    while k < n
        invariant
            from <= k <= n,
            n == s@.len(),
            forall|j: int| from <= j < k ==> is_digit_char(s@[j]),
        decreases n - k,
    {
        let c = s[k];
        if !('0' <= c && c <= '9') {
            proof {
                assert(!is_digit_char(s@.skip(from as int)[k - from]));
            }
            return false;
        }
        k = k + 1;
    }
    proof {
        assert(forall|j: int| 0 <= j < s@.skip(from as int).len() ==> is_digit_char(
            #[trigger] s@.skip(from as int)[j],
        ));
    }
    true
}

/// Signed 64-bit parse of the whole buffer.
pub fn parse_i64_chars(s: &Vec<char>) -> (r: Option<i64>)
    ensures
        r == spec_parse_i64(s@),
{
    let n = s.len();
    let neg = n > 0 && s[0] == '-';
    let signed = n > 0 && (s[0] == '+' || s[0] == '-');
    let from: usize = if signed {
        1
    } else {
        0
    };
    let ghost ds = if signed {
        s@.skip(1)
    } else {
        s@
    };
    proof {
        if !signed {
            assert(s@.skip(0) =~= s@);
        }
    }
    let mag = parse_digits_u64(s, from);
    proof {
        assert(ds =~= s@.skip(from as int));
        if ds.len() > 0 && all_digits(ds) {
            lemma_digits_val_nonneg(ds);
        }
    }
    match mag {
        None => {
            // Either the digit run is malformed, or its value exceeds
            // u64::MAX and so lies outside the i64 range as well.
            None
        },
        Some(m) => {
            if neg {
                if m <= 0x7fff_ffff_ffff_ffffu64 {
                    Some(-(m as i64))
                } else if m == 0x8000_0000_0000_0000u64 {
                    Some(i64::MIN)
                } else {
                    None
                }
            } else {
                if m <= 0x7fff_ffff_ffff_ffffu64 {
                    Some(m as i64)
                } else {
                    None
                }
            }
        },
    }
}

/// Case-insensitive match of one character.
pub open spec fn ci_eq(c: char, lo: char, up: char) -> bool {
    c == lo || c == up
}

pub open spec fn is_inf_lexeme(r: Seq<char>) -> bool {
    &&& r.len() == 3
    &&& ci_eq(r[0], 'i', 'I')
    &&& ci_eq(r[1], 'n', 'N')
    &&& ci_eq(r[2], 'f', 'F')
}

pub open spec fn is_infinity_lexeme(r: Seq<char>) -> bool {
    &&& r.len() == 8
    &&& ci_eq(r[0], 'i', 'I')
    &&& ci_eq(r[1], 'n', 'N')
    &&& ci_eq(r[2], 'f', 'F')
    &&& ci_eq(r[3], 'i', 'I')
    &&& ci_eq(r[4], 'n', 'N')
    &&& ci_eq(r[5], 'i', 'I')
    &&& ci_eq(r[6], 't', 'T')
    &&& ci_eq(r[7], 'y', 'Y')
}

pub open spec fn is_nan_lexeme(r: Seq<char>) -> bool {
    &&& r.len() == 3
    &&& ci_eq(r[0], 'n', 'N')
    &&& ci_eq(r[1], 'a', 'A')
    &&& ci_eq(r[2], 'n', 'N')
}

/// A mantissa: at least one digit, any mix of digits and at most one dot.
pub open spec fn is_mantissa(m: Seq<char>) -> bool {
    &&& m.len() > 0
    &&& forall|j: int| 0 <= j < m.len() ==> is_digit_char(#[trigger] m[j]) || m[j] == '.'
    &&& forall|j1: int, j2: int|
        #![trigger m[j1], m[j2]]
        0 <= j1 < j2 < m.len() ==> !(m[j1] == '.' && m[j2] == '.')
    &&& exists|j: int| 0 <= j < m.len() && is_digit_char(#[trigger] m[j])
}

/// What may follow the `e` of an exponent: an optional sign, then at least
/// one digit.
pub open spec fn is_exp_tail(t: Seq<char>) -> bool {
    let d = if t.len() > 0 && (t[0] == '+' || t[0] == '-') {
        t.skip(1)
    } else {
        t
    };
    d.len() > 0 && all_digits(d)
}

/// Index of the first `e` or `E`, or the length when there is none.
pub open spec fn find_exp(r: Seq<char>) -> int
    decreases r.len(),
{
    if r.len() == 0 {
        0
    } else if r[0] == 'e' || r[0] == 'E' {
        0
    } else {
        1 + find_exp(r.skip(1))
    }
}

pub proof fn lemma_find_exp_char(r: Seq<char>)
    ensures
        0 <= find_exp(r) <= r.len(),
        forall|j: int| 0 <= j < find_exp(r) ==> !(#[trigger] r[j] == 'e' || r[j] == 'E'),
        find_exp(r) < r.len() ==> (r[find_exp(r)] == 'e' || r[find_exp(r)] == 'E'),
    decreases r.len(),
{
    if r.len() == 0 {
    } else if r[0] == 'e' || r[0] == 'E' {
    } else {
        lemma_find_exp_char(r.skip(1));
        assert forall|j: int| 0 <= j < find_exp(r) implies !(#[trigger] r[j] == 'e' || r[j]
            == 'E') by {
            if j > 0 {
                assert(r.skip(1)[j - 1] == r[j]);
            }
        }
        if find_exp(r) < r.len() {
            assert(r.skip(1)[find_exp(r) - 1] == r[find_exp(r)]);
        }
    }
}

/// A float lexeme that is not one of the named specials: a mantissa,
/// optionally followed by `e`/`E`, an optional sign, and digits.
pub open spec fn is_float_number(r: Seq<char>) -> bool {
    let k = find_exp(r);
    if k == r.len() {
        is_mantissa(r)
    } else {
        is_mantissa(r.take(k)) && is_exp_tail(r.skip(k + 1))
    }
}

/// The grammar a 64-bit float parse accepts from decimal text: an optional
/// sign, then `inf`, `infinity` or `nan` (case-insensitive) or a number
/// with at most one dot and an optional exponent.
pub open spec fn is_float_lexeme(s: Seq<char>) -> bool {
    let r = if s.len() > 0 && (s[0] == '+' || s[0] == '-') {
        s.skip(1)
    } else {
        s
    };
    is_inf_lexeme(r) || is_infinity_lexeme(r) || is_nan_lexeme(r) || is_float_number(r)
}

fn ci(c: char, lo: char, up: char) -> (b: bool)
    ensures
        b == ci_eq(c, lo, up),
{
    c == lo || c == up
}

/// Mantissa check over `s[from..to)`.
fn is_mantissa_range(s: &Vec<char>, from: usize, to: usize) -> (b: bool)
    requires
        from <= to <= s@.len(),
    ensures
        b == is_mantissa(s@.subrange(from as int, to as int)),
{
    let ghost m = s@.subrange(from as int, to as int);
    if from == to {
        return false;
    }
    let mut seen_digit = false;
    let mut seen_dot = false;
    let mut k: usize = from;
    while k < to
        invariant
            from <= k <= to <= s@.len(),
            m == s@.subrange(from as int, to as int),
            forall|j: int| 0 <= j < k - from ==> is_digit_char(#[trigger] m[j]) || m[j] == '.',
            seen_digit == exists|j: int| 0 <= j < k - from && is_digit_char(#[trigger] m[j]),
            seen_dot == exists|j: int| 0 <= j < k - from && #[trigger] m[j] == '.',
            forall|j1: int, j2: int|
                #![trigger m[j1], m[j2]]
                0 <= j1 < j2 < k - from ==> !(m[j1] == '.' && m[j2] == '.'),
        decreases to - k,
    {
        let c = s[k];
        proof {
            assert(m[k - from] == c);
        }
        if c == '.' {
            if seen_dot {
                proof {
                    let j1 = choose|j: int| 0 <= j < k - from && #[trigger] m[j] == '.';
                    assert(m[j1] == '.' && m[k - from] == '.');
                    assert(!is_mantissa(m));
                }
                return false;
            }
            seen_dot = true;
        } else if '0' <= c && c <= '9' {
            seen_digit = true;
        } else {
            proof {
                assert(!(is_digit_char(m[k - from]) || m[k - from] == '.'));
                assert(!is_mantissa(m));
            }
            return false;
        }
        k = k + 1;
    }
    if !seen_digit {
        proof {
            assert(!is_mantissa(m));
        }
        return false;
    }
    proof {
        assert(is_mantissa(m));
    }
    true
}

/// Exponent-tail check over `s[from..)`: optional sign, then digits.
fn is_exp_tail_range(s: &Vec<char>, from: usize) -> (b: bool)
    requires
        from <= s@.len(),
    ensures
        b == is_exp_tail(s@.skip(from as int)),
{
    let ghost t = s@.skip(from as int);
    let n = s.len();
    let signed = from < n && (s[from] == '+' || s[from] == '-');
    let from2: usize = if signed {
        from + 1
    } else {
        from
    };
    proof {
        if signed {
            assert(t.skip(1) =~= s@.skip(from2 as int));
        } else {
            assert(t =~= s@.skip(from2 as int));
        }
    }
    let nonempty = from2 < n;
    nonempty && all_digits_from(s, from2)
}

/// Float-lexeme check of the whole buffer.
pub fn is_float_chars(s: &Vec<char>) -> (b: bool)
    ensures
        b == is_float_lexeme(s@),
{
    let n = s.len();
    let signed = n > 0 && (s[0] == '+' || s[0] == '-');
    let start: usize = if signed {
        1
    } else {
        0
    };
    let ghost r = s@.skip(start as int);
    proof {
        if !signed {
            assert(s@.skip(0) =~= s@);
        }
    }
    let rem = n - start;
    if rem == 3 && ci(s[start], 'i', 'I') && ci(s[start + 1], 'n', 'N') && ci(
        s[start + 2],
        'f',
        'F',
    ) {
        proof {
            assert(is_inf_lexeme(r));
        }
        return true;
    }
    if rem == 8 && ci(s[start], 'i', 'I') && ci(s[start + 1], 'n', 'N') && ci(
        s[start + 2],
        'f',
        'F',
    ) && ci(s[start + 3], 'i', 'I') && ci(s[start + 4], 'n', 'N') && ci(s[start + 5], 'i', 'I')
        && ci(s[start + 6], 't', 'T') && ci(s[start + 7], 'y', 'Y') {
        proof {
            assert(is_infinity_lexeme(r));
        }
        return true;
    }
    if rem == 3 && ci(s[start], 'n', 'N') && ci(s[start + 1], 'a', 'A') && ci(
        s[start + 2],
        'n',
        'N',
    ) {
        proof {
            assert(is_nan_lexeme(r));
        }
        return true;
    }
    proof {
        assert(!is_inf_lexeme(r) && !is_infinity_lexeme(r) && !is_nan_lexeme(r));
    }
    // Find the first 'e' or 'E' at or after `start`.
    let mut k: usize = start;
    while k < n && !(s[k] == 'e' || s[k] == 'E')
        invariant
            start <= k <= n,
            n == s@.len(),
            r == s@.skip(start as int),
            forall|j: int| 0 <= j < k - start ==> !(#[trigger] r[j] == 'e' || r[j] == 'E'),
        decreases n - k,
    {
        k = k + 1;
    }
    proof {
        lemma_find_exp_char(r);
        // Both k - start and find_exp(r) are the first exponent position.
        if k < n {
            assert(r[k - start] == 'e' || r[k - start] == 'E');
            if find_exp(r) < k - start {
                assert(false);
            }
            if find_exp(r) > k - start {
                assert(false);
            }
        } else {
            if find_exp(r) < r.len() {
                assert(false);
            }
        }
        assert(find_exp(r) == k - start);
    }
    if k == n {
        proof {
            assert(s@.subrange(start as int, n as int) =~= r);
        }
        is_mantissa_range(s, start, n)
    } else {
        proof {
            assert(s@.subrange(start as int, k as int) =~= r.take(k - start));
            assert(s@.skip(k + 1) =~= r.skip(k - start + 1));
        }
        let m_ok = is_mantissa_range(s, start, k);
        m_ok && is_exp_tail_range(s, k + 1)
    }
}

/// Unsigned 64-bit parse of the whole buffer.
pub fn parse_u64_chars(s: &Vec<char>) -> (r: Option<u64>)
    ensures
        r == spec_parse_u64(s@),
{
    let n = s.len();
    if n > 0 && s[0] == '-' {
        return None;
    }
    let plus = n > 0 && s[0] == '+';
    let from: usize = if plus {
        1
    } else {
        0
    };
    proof {
        if !plus {
            assert(s@.skip(0) =~= s@);
        }
    }
    let mag = parse_digits_u64(s, from);
    proof {
        let ds = if plus {
            s@.skip(1)
        } else {
            s@
        };
        assert(ds =~= s@.skip(from as int));
        if ds.len() > 0 && all_digits(ds) {
            lemma_digits_val_nonneg(ds);
        }
    }
    mag
}

} // verus!
