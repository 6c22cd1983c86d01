//! Trimming: a text without the whitespace at its two ends.

use crate::bytes::{
    lemma_encode_window, lemma_offset_grows, lemma_offset_step, offset, width, window,
};
use crate::classes::{is_whitespace, whitespace};
use vstd::prelude::*;

verus! {

/// The first index from `i` on, below `hi`, whose character is not
/// whitespace; `hi` where every character in between is whitespace.
pub open spec fn skip_forward(s: Seq<char>, i: int, hi: int) -> int
    decreases hi - i,
{
    if 0 <= i < hi <= s.len() && is_whitespace(s[i]) {
        skip_forward(s, i + 1, hi)
    } else {
        i
    }
}

/// The end of the last run of non-whitespace below `j`: the least index
/// from `lo` on such that everything from it up to `j` is whitespace.
pub open spec fn skip_backward(s: Seq<char>, lo: int, j: int) -> int
    decreases j - lo,
{
    if 0 <= lo < j <= s.len() && is_whitespace(s[j - 1]) {
        skip_backward(s, lo, j - 1)
    } else {
        j
    }
}

/// `s` without its leading and trailing whitespace.
pub open spec fn trimmed(s: Seq<char>) -> Seq<char> {
    let a = skip_forward(s, 0, s.len() as int);
    let b = skip_backward(s, a, s.len() as int);
    s.subrange(a, b)
}

/// Every character of `s` from `from` up to `to` is whitespace.
pub open spec fn all_whitespace(s: Seq<char>, from: int, to: int) -> bool {
    forall|j: int| from <= j < to ==> is_whitespace(#[trigger] s[j])
}

/// Where `skip_forward` stops: everything it passed is whitespace, and it
/// stands on a character that is not, unless it reached `hi`.
pub proof fn lemma_skip_forward(s: Seq<char>, i: int, hi: int)
    requires
        0 <= i <= hi <= s.len(),
    ensures
        i <= skip_forward(s, i, hi) <= hi,
        all_whitespace(s, i, skip_forward(s, i, hi)),
        skip_forward(s, i, hi) < hi ==> !is_whitespace(s[skip_forward(s, i, hi)]),
    decreases hi - i,
{
    if i < hi && is_whitespace(s[i]) {
        lemma_skip_forward(s, i + 1, hi);
    }
}

/// Where `skip_backward` stops: everything it passed is whitespace, and the
/// character just below it is not, unless it reached `lo`.
pub proof fn lemma_skip_backward(s: Seq<char>, lo: int, j: int)
    requires
        0 <= lo <= j <= s.len(),
    ensures
        lo <= skip_backward(s, lo, j) <= j,
        all_whitespace(s, skip_backward(s, lo, j), j),
        lo < skip_backward(s, lo, j) ==> !is_whitespace(s[skip_backward(s, lo, j) - 1]),
    decreases j - lo,
{
    if lo < j && is_whitespace(s[j - 1]) {
        lemma_skip_backward(s, lo, j - 1);
    }
}

/// Trimming takes whitespace from the two ends of `s` and nothing else:
/// what is left is a run of `s` that neither starts nor ends with
/// whitespace, and all before and behind it is whitespace.
pub proof fn lemma_trimmed(s: Seq<char>)
    ensures
        ({
            let a = skip_forward(s, 0, s.len() as int);
            let t = trimmed(s);
            &&& 0 <= a
            &&& a + t.len() <= s.len()
            &&& t == s.subrange(a, a + t.len())
            &&& all_whitespace(s, 0, a)
            &&& all_whitespace(s, a + t.len(), s.len() as int)
            &&& t.len() > 0 ==> !is_whitespace(t[0]) && !is_whitespace(t[t.len() - 1])
        }),
{
    let n = s.len() as int;
    let a = skip_forward(s, 0, n);
    lemma_skip_forward(s, 0, n);
    lemma_skip_backward(s, a, n);
}

/// Only one run of `s` is left by taking whitespace from its two ends: a
/// run with nothing but whitespace before and behind it, which neither
/// starts nor ends with whitespace, is `s` trimmed.
pub proof fn lemma_trimmed_unique(s: Seq<char>, a: int, b: int)
    requires
        0 <= a <= b <= s.len(),
        all_whitespace(s, 0, a),
        all_whitespace(s, b, s.len() as int),
        a < b ==> !is_whitespace(s[a]) && !is_whitespace(s[b - 1]),
    ensures
        trimmed(s) == s.subrange(a, b),
{
    let n = s.len() as int;
    let x = skip_forward(s, 0, n);
    lemma_skip_forward(s, 0, n);
    lemma_skip_backward(s, x, n);
    let y = skip_backward(s, x, n);
    if a < b {
        if x < a {
            assert(is_whitespace(s[x]));
        }
        if a < x {
            assert(is_whitespace(s[a]));
        }
        if y < b {
            assert(is_whitespace(s[b - 1]));
        }
        if b < y {
            assert(is_whitespace(s[y - 1]));
        }
    } else {
        if x < n {
            assert(is_whitespace(s[x]));
        }
        assert(s.subrange(x, y) =~= s.subrange(a, b));
    }
}

/// `s` without its leading and trailing whitespace.
pub fn trim<'a>(s: &'a str) -> (r: &'a str)
    ensures
        r@ == trimmed(s@),
{
    let bytes = s.as_bytes().len();
    proof {
        lemma_encode_window(s@, 0, s@.len() as int);
    }
    if bytes == 0 {
        proof {
            lemma_offset_grows(s@, s@.len() as int);
            lemma_trimmed_unique(s@, 0, 0);
            assert(s@.subrange(0, 0) =~= s@);
        }
        return s;
    }
    let mut n: usize = 0;
    let mut first: usize = 0;
    let mut last: usize = 0;
    let ghost mut a: int = 0;
    let ghost mut z: int = 0;
    for c in it: s.chars()
        invariant
            it.seq() == s@,
            it.index() <= s@.len(),
            n == offset(s@, it.index() as int),
            bytes == offset(s@, s@.len() as int),
            0 <= a <= z <= it.index(),
            first == offset(s@, a),
            last == offset(s@, z),
            all_whitespace(s@, 0, a),
            all_whitespace(s@, z, it.index() as int),
            a < z ==> !is_whitespace(s@[a]) && !is_whitespace(s@[z - 1]),
            a == z ==> z == 0,
    {
        proof {
            lemma_offset_step(s@, it.index() as int);
            lemma_encode_window(s@, it.index() + 1, s@.len() as int);
        }
        let next = n + width(c);
        if !whitespace(c) {
            if last == 0 {
                first = n;
                proof {
                    if z > 0 {
                        lemma_offset_grows(s@, z);
                    }
                    a = it.index() as int;
                }
            }
            last = next;
            proof {
                z = it.index() + 1;
            }
        }
        n = next;
    }
    proof {
        lemma_trimmed_unique(s@, a, z);
    }
    window(s, Ghost(a), Ghost(z), first, last)
}

} // verus!
