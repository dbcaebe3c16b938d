//! Conversions between text and character vectors. The lexer works on
//! character vectors internally; public signatures speak `&str` and
//! `String`.

use vstd::prelude::*;
use vstd::string::StrSliceExecFns;

verus! {

/// Collects the characters of a string slice into a vector.
pub fn str_to_chars(s: &str) -> (v: Vec<char>)
    ensures
        v@ == s@,
{
    let n = s.unicode_len();
    let mut v: Vec<char> = Vec::new();
    let mut k: usize = 0;
    while k < n
        invariant
            n == s@.len(),
            k <= n,
            v@ == s@.take(k as int),
        decreases n - k,
    {
        let c = s.get_char(k);
        v.push(c);
        k = k + 1;
        proof {
            assert(v@ =~= s@.take(k as int));
        }
    }
    proof {
        assert(s@.take(n as int) =~= s@);
    }
    v
}

/// Relies on `Iterator::collect` for `String`: collecting the characters of
/// a `Vec<char>` yields the string of exactly those characters.
#[verifier::external_body]
pub fn chars_to_string(v: &Vec<char>) -> (s: String)
    ensures
        s@ == v@,
{
    v.iter().collect()
}

/// Compares a character vector against a string slice.
pub fn chars_eq_str(v: &Vec<char>, w: &str) -> (b: bool)
    ensures
        b == (v@ == w@),
{
    let n = w.unicode_len();
    if v.len() != n {
        proof {
            assert(v@ != w@) by {
                assert(v@.len() != w@.len());
            }
        }
        return false;
    }
    let mut k: usize = 0;
    while k < n
        invariant
            n == w@.len(),
            v@.len() == n,
            k <= n,
            forall|j: int| 0 <= j < k ==> v@[j] == w@[j],
        decreases n - k,
    {
        if v[k] != w.get_char(k) {
            proof {
                assert(v@ != w@) by {
                    assert(v@[k as int] != w@[k as int]);
                }
            }
            return false;
        }
        k = k + 1;
    }
    proof {
        assert(v@ =~= w@);
    }
    true
}

} // verus!
