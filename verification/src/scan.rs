//! Finding the two marker lines of a document among the bytes of its text.
//!
//! Markers, blank characters and line breaks are all characters below 128,
//! each a byte of its own in UTF-8, so the search reads bytes and never
//! decodes a character.

use crate::bytes::{lemma_char_bytes, lemma_encode_window, offset, window};
use crate::classes::{blank_byte, is_blank};
use crate::grammar::{
    all_blank, body_start, break_len, closes_at, ends_line, is_split, lemma_line_start,
    lemma_opening_unique, line_start, marker_at, next_line, opens_at, sections, Convention,
};
use vstd::prelude::*;
use vstd::utf8::{encode_utf8, is_continuation_byte};

verus! {

/// The byte at offset `p`, where a character below 128 stands there.
fn ascii_at(b: &[u8], Ghost(s): Ghost<Seq<char>>, Ghost(i): Ghost<int>, p: usize) -> (r: Option<u8>)
    requires
        b@ == encode_utf8(s),
        0 <= i <= s.len(),
        p == offset(s, i),
    ensures
        match r {
            Some(x) => {
                &&& i < s.len()
                &&& x < 0x80
                &&& s[i] == x as char
                &&& offset(s, i + 1) == p + 1
                &&& p + 1 <= b.len()
            },
            None => i == s.len() || s[i] >= '\u{80}',
        },
{
    proof {
        lemma_encode_window(s, i, s.len() as int);
        if i < s.len() {
            lemma_char_bytes(s, i);
        }
    }
    if p < b.len() && b[p] < 0x80 {
        Some(b[p])
    } else {
        None
    }
}

/// The byte that encodes the marker character of `c`.
fn marker_byte(c: Convention) -> (m: u8)
    ensures
        m < 0x80,
        m as char == c.marker(),
{
    match c {
        Convention::Yaml => 0x2d,
        Convention::YamlAlternate => 0x2e,
        Convention::Toml => 0x2b,
    }
}

/// Tells whether the marker of `c` stands at offset `p`.
fn has_marker(
    b: &[u8],
    Ghost(s): Ghost<Seq<char>>,
    Ghost(i): Ghost<int>,
    p: usize,
    c: Convention,
) -> (r: bool)
    requires
        b@ == encode_utf8(s),
        0 <= i <= s.len(),
        p == offset(s, i),
    ensures
        r == marker_at(s, c, i),
        r ==> offset(s, i + 3) == p + 3 && p + 3 <= b.len(),
{
    let m = marker_byte(c);
    let first = match ascii_at(b, Ghost(s), Ghost(i), p) {
        Some(x) => x == m,
        None => false,
    };
    if !first {
        return false;
    }
    let second = match ascii_at(b, Ghost(s), Ghost(i + 1), p + 1) {
        Some(x) => x == m,
        None => false,
    };
    if !second {
        return false;
    }
    match ascii_at(b, Ghost(s), Ghost(i + 2), p + 2) {
        Some(x) => x == m,
        None => false,
    }
}

/// The length of the line break at offset `p`, 0 where there is none.
fn line_break(b: &[u8], Ghost(s): Ghost<Seq<char>>, Ghost(i): Ghost<int>, p: usize) -> (n: usize)
    requires
        b@ == encode_utf8(s),
        0 <= i <= s.len(),
        p == offset(s, i),
    ensures
        n == break_len(s, i),
        offset(s, i + n) == p + n,
        p + n <= b.len(),
{
    proof {
        lemma_encode_window(s, i, s.len() as int);
    }
    match ascii_at(b, Ghost(s), Ghost(i), p) {
        None => 0,
        Some(x) => {
            if x == 0x0a {
                1
            } else if x == 0x0d {
                match ascii_at(b, Ghost(s), Ghost(i + 1), p + 1) {
                    None => 0,
                    Some(y) => if y == 0x0a {
                        2
                    } else {
                        0
                    },
                }
            } else {
                0
            }
        },
    }
}

/// Tells whether a line ends at offset `p`, the end of the text counting as
/// an end where `at_end` says so.
fn line_ends(
    b: &[u8],
    Ghost(s): Ghost<Seq<char>>,
    Ghost(i): Ghost<int>,
    p: usize,
    at_end: bool,
) -> (r: bool)
    requires
        b@ == encode_utf8(s),
        0 <= i <= s.len(),
        p == offset(s, i),
    ensures
        r == ends_line(s, i, at_end),
{
    proof {
        lemma_encode_window(s, i, s.len() as int);
        if i < s.len() {
            lemma_char_bytes(s, i);
            lemma_encode_window(s, i + 1, s.len() as int);
            if i + 1 < s.len() {
                lemma_char_bytes(s, i + 1);
            }
        }
    }
    if line_break(b, Ghost(s), Ghost(i), p) > 0 {
        true
    } else if !at_end {
        false
    } else if p == b.len() {
        true
    } else {
        b.len() - p == 1 && b[p] == 0x0d
    }
}

/// Where `s` opens under `c`, if it does: the offset of the opening
/// marker, and its index.
fn find_opening(b: &[u8], Ghost(s): Ghost<Seq<char>>, c: Convention) -> (r: Option<
    (usize, Ghost<int>),
>)
    requires
        b@ == encode_utf8(s),
    ensures
        match r {
            Some((p, k)) => {
                &&& opens_at(s, c, k@)
                &&& p == offset(s, k@)
                &&& p + 3 == offset(s, k@ + 3)
                &&& p + 3 <= b.len()
            },
            None => forall|k: int| !opens_at(s, c, k),
        },
{
    let mut p: usize = 0;
    let ghost mut k: int = 0;
    proof {
        lemma_encode_window(s, 0, 0);
    }
    loop
        invariant
            b@ == encode_utf8(s),
            0 <= k <= s.len(),
            p == offset(s, k),
            all_blank(s, 0, k),
        ensures
            k == s.len() || !is_blank(s[k]),
        decreases s.len() - k,
    {
        match ascii_at(b, Ghost(s), Ghost(k), p) {
            Some(x) => {
                if !blank_byte(x) {
                    break ;
                }
            },
            None => {
                break ;
            },
        }
        p += 1;
        proof {
            k = k + 1;
        }
    }
    if has_marker(b, Ghost(s), Ghost(k), p, c) && line_ends(
        b,
        Ghost(s),
        Ghost(k + 3),
        p + 3,
        false,
    ) {
        Some((p, Ghost(k)))
    } else {
        proof {
            assert forall|l: int| !opens_at(s, c, l) by {
                if opens_at(s, c, l) {
                    if l < k {
                        assert(is_blank(s[l]));
                    } else if l > k {
                        assert(is_blank(s[k]));
                    }
                }
            }
        }
        None
    }
}

/// The first closing line of `c` at or behind index `from`, which starts a
/// line, if there is one: the offset of its marker, and its index.
fn find_closing(
    b: &[u8],
    Ghost(s): Ghost<Seq<char>>,
    c: Convention,
    start: usize,
    Ghost(from): Ghost<int>,
    at_end: bool,
) -> (r: Option<(usize, Ghost<int>)>)
    requires
        b@ == encode_utf8(s),
        0 <= from <= s.len(),
        start == offset(s, from),
        line_start(s, from) == from,
    ensures
        match r {
            Some((p, e)) => {
                &&& from <= e@
                &&& p == offset(s, e@)
                &&& p + 3 == offset(s, e@ + 3)
                &&& p + 3 <= b.len()
                &&& closes_at(s, c, e@, at_end)
                &&& forall|j: int| from <= j < e@ ==> !closes_at(s, c, j, at_end)
            },
            None => forall|j: int| from <= j ==> !closes_at(s, c, j, at_end),
        },
{
    let mut p: usize = start;
    let ghost mut i: int = from;
    let mut alone: bool = true;
    proof {
        lemma_encode_window(s, from, s.len() as int);
    }
    while p < b.len()
        invariant
            b@ == encode_utf8(s),
            0 <= from <= i <= s.len(),
            p == offset(s, i),
            b.len() == offset(s, s.len() as int),
            alone == all_blank(s, line_start(s, i), i),
            forall|j: int| from <= j < i ==> !closes_at(s, c, j, at_end),
        decreases b.len() - p,
    {
        if alone && has_marker(b, Ghost(s), Ghost(i), p, c) && line_ends(
            b,
            Ghost(s),
            Ghost(i + 3),
            p + 3,
            at_end,
        ) {
            return Some((p, Ghost(i)));
        }
        proof {
            lemma_char_bytes(s, i);
            lemma_line_start(s, i);
            if s[i] != '\n' {
                assert(line_start(s, i + 1) == line_start(s, i));
            }
            if i + 1 < s.len() {
                lemma_char_bytes(s, i + 1);
            }
        }
        let x = b[p];
        p += 1;
        if x < 0x80 {
            alone = x == 0x0a || (alone && blank_byte(x));
        } else {
            alone = false;
            while p < b.len() && 0x80 <= b[p] && b[p] < 0xc0
                invariant
                    b@ == encode_utf8(s),
                    0 <= i < s.len(),
                    offset(s, i) < p <= offset(s, i + 1) <= b.len(),
                    b.len() == offset(s, s.len() as int),
                    i + 1 < s.len() ==> !is_continuation_byte(b@[offset(s, i + 1)]),
                    forall|j: int|
                        offset(s, i) < j < offset(s, i + 1) ==> is_continuation_byte(
                            #[trigger] b@[j],
                        ),
                ensures
                    p == offset(s, i + 1),
                decreases b.len() - p,
            {
                p += 1;
            }
        }
        proof {
            i = i + 1;
        }
    }
    proof {
        if i < s.len() {
            lemma_char_bytes(s, i);
        }
    }
    None
}

/// The two sections of `input` as a document with front matter under `c`:
/// the text between its two marker lines and the text behind them, as they
/// stand.
pub fn split<'a>(input: &'a str, c: Convention, at_end: bool) -> (r: Option<(&'a str, &'a str)>)
    ensures
        match r {
            Some((body, rest)) => exists|k: int, e: int|
                is_split(input@, c, at_end, k, e) && (body@, rest@) == sections(input@, k, e),
            None => forall|k: int, e: int| !is_split(input@, c, at_end, k, e),
        },
{
    let ghost s = input@;
    let b = input.as_bytes();
    match find_opening(b, Ghost(s), c) {
        None => None,
        Some((p, opening)) => {
            let ghost k = opening@;
            let n = line_break(b, Ghost(s), Ghost(k + 3), p + 3);
            let start = p + 3 + n;
            let ghost from = k + 3 + n;
            proof {
                assert(from == body_start(s, k));
                lemma_line_start(s, from);
                assert(s[from - 1] == '\n');
            }
            match find_closing(b, Ghost(s), c, start, Ghost(from), at_end) {
                None => {
                    proof {
                        assert forall|l: int, f: int| !is_split(s, c, at_end, l, f) by {
                            if is_split(s, c, at_end, l, f) {
                                lemma_opening_unique(s, c, c, k, l);
                            }
                        }
                    }
                    None
                },
                Some((q, closing)) => {
                    let ghost e = closing@;
                    let m = line_break(b, Ghost(s), Ghost(e + 3), q + 3);
                    let behind = if m > 0 {
                        q + 3 + m
                    } else {
                        b.len()
                    };
                    let ghost next = next_line(s, e + 3);
                    proof {
                        lemma_encode_window(s, next, s.len() as int);
                    }
                    let body = window(input, Ghost(from), Ghost(e), start, q);
                    let rest = window(input, Ghost(next), Ghost(s.len() as int), behind, b.len());
                    proof {
                        assert(is_split(s, c, at_end, k, e));
                        assert((body@, rest@) == sections(s, k, e));
                    }
                    Some((body, rest))
                },
            }
        },
    }
}

} // verus!
