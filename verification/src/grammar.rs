//! What it means for a text to carry front matter.
//!
//! A document with front matter reads: blank characters, a marker, a line
//! break, the body, a line that holds nothing but a marker (behind blank
//! characters, if any), and the content. The marker is one character
//! written three times; which character tells the convention.

use crate::classes::is_blank;
use crate::trim::trimmed;
use vstd::prelude::*;

verus! {

/// A way of fencing front matter.
#[derive(Clone, Copy, Debug, PartialEq, Eq, Structural)]
pub enum Convention {
    /// Fenced by `---`.
    Yaml,
    /// Fenced by `...`.
    YamlAlternate,
    /// Fenced by `+++`.
    Toml,
}

impl Convention {
    /// The character that, written three times, makes this convention's marker.
    pub open spec fn spec_marker(self) -> char {
        match self {
            Convention::Yaml => '-',
            Convention::YamlAlternate => '.',
            Convention::Toml => '+',
        }
    }

    /// The character that, written three times, makes this convention's marker.
    #[verifier::when_used_as_spec(spec_marker)]
    pub fn marker(self) -> (m: char)
        ensures
            m == self.spec_marker(),
            !is_blank(m),
    {
        match self {
            Convention::Yaml => '-',
            Convention::YamlAlternate => '.',
            Convention::Toml => '+',
        }
    }
}

/// Every character of `s` from `from` up to `to` is blank.
pub open spec fn all_blank(s: Seq<char>, from: int, to: int) -> bool {
    forall|j: int| from <= j < to ==> is_blank(#[trigger] s[j])
}

/// The marker of `c` stands at index `i` of `s`.
pub open spec fn marker_at(s: Seq<char>, c: Convention, i: int) -> bool {
    &&& 0 <= i
    &&& i + 3 <= s.len()
    &&& s[i] == c.marker()
    &&& s[i + 1] == c.marker()
    &&& s[i + 2] == c.marker()
}

/// The length of the line break at index `i`: 1 for a line feed, 2 for a
/// carriage return with a line feed behind it, 0 where neither stands.
pub open spec fn break_len(s: Seq<char>, i: int) -> int {
    if 0 <= i < s.len() && s[i] == '\n' {
        1
    } else if 0 <= i && i + 1 < s.len() && s[i] == '\r' && s[i + 1] == '\n' {
        2
    } else {
        0
    }
}

/// The line ends at index `i`: with a line break or, where `at_end` allows
/// it, with the end of the text (behind a carriage return, if any).
pub open spec fn ends_line(s: Seq<char>, i: int, at_end: bool) -> bool {
    ||| break_len(s, i) > 0
    ||| at_end && i == s.len()
    ||| at_end && i + 1 == s.len() && s[i] == '\r'
}

/// Where the next line starts, for a line that ends at index `i`: behind
/// the line break, or at the end of the text where there is none.
pub open spec fn next_line(s: Seq<char>, i: int) -> int {
    if break_len(s, i) > 0 {
        i + break_len(s, i)
    } else {
        s.len() as int
    }
}

/// The start of the line that index `i` lies on.
pub open spec fn line_start(s: Seq<char>, i: int) -> int
    decreases i,
{
    if 0 < i <= s.len() && s[i - 1] != '\n' {
        line_start(s, i - 1)
    } else {
        i
    }
}

/// `s` opens with the marker of `c` at index `k`: nothing but blank
/// characters stands before it, and a line break right behind it.
pub open spec fn opens_at(s: Seq<char>, c: Convention, k: int) -> bool {
    &&& all_blank(s, 0, k)
    &&& marker_at(s, c, k)
    &&& ends_line(s, k + 3, false)
}

/// The marker of `c` at index `e` makes a closing line: nothing but blank
/// characters stands before it on its line, and the line ends right behind
/// it.
pub open spec fn closes_at(s: Seq<char>, c: Convention, e: int, at_end: bool) -> bool {
    &&& marker_at(s, c, e)
    &&& all_blank(s, line_start(s, e), e)
    &&& ends_line(s, e + 3, at_end)
}

/// Where the body starts in a text that opens at `k`.
pub open spec fn body_start(s: Seq<char>, k: int) -> int {
    next_line(s, k + 3)
}

/// `s` is a document with front matter under `c`: it opens at `k`, and `e`
/// is the first closing line behind the opening one.
pub open spec fn is_split(s: Seq<char>, c: Convention, at_end: bool, k: int, e: int) -> bool {
    &&& opens_at(s, c, k)
    &&& body_start(s, k) <= e
    &&& closes_at(s, c, e, at_end)
    &&& forall|j: int| body_start(s, k) <= j < e ==> !closes_at(s, c, j, at_end)
}

/// The two sections of a document that opens at `k` and closes at `e`, as
/// they stand: the text from behind the opening line up to the closing
/// marker, and the text behind the closing line.
pub open spec fn sections(s: Seq<char>, k: int, e: int) -> (Seq<char>, Seq<char>) {
    (s.subrange(body_start(s, k), e), s.subrange(next_line(s, e + 3), s.len() as int))
}

/// The two parts of a document that opens at `k` and closes at `e`: its
/// two sections, each trimmed.
pub open spec fn parts(s: Seq<char>, k: int, e: int) -> (Seq<char>, Seq<char>) {
    (trimmed(sections(s, k, e).0), trimmed(sections(s, k, e).1))
}

/// The front matter and the content of `s` under `c`, where `s` is a
/// document with front matter under `c`.
pub open spec fn front_matter(s: Seq<char>, c: Convention, at_end: bool) -> Option<
    (Seq<char>, Seq<char>),
> {
    if exists|k: int, e: int| is_split(s, c, at_end, k, e) {
        let (k, e) = choose|k: int, e: int| is_split(s, c, at_end, k, e);
        Some(parts(s, k, e))
    } else {
        None
    }
}

/// What the first convention of `set`, from index `i` on, under which `s`
/// carries front matter makes of `s`.
pub open spec fn first_match(s: Seq<char>, set: Seq<Convention>, at_end: bool, i: int) -> Option<
    (Seq<char>, Seq<char>),
>
    decreases set.len() - i,
{
    if i < 0 || i >= set.len() {
        None
    } else if front_matter(s, set[i], at_end) is Some {
        front_matter(s, set[i], at_end)
    } else {
        first_match(s, set, at_end, i + 1)
    }
}

/// The start of a line lies at or before every index on it, behind a line
/// feed or at the start of the text, with no line feed in between.
pub proof fn lemma_line_start(s: Seq<char>, i: int)
    requires
        0 <= i <= s.len(),
    ensures
        0 <= line_start(s, i) <= i,
        line_start(s, i) == 0 || s[line_start(s, i) - 1] == '\n',
        forall|j: int| line_start(s, i) <= j < i ==> s[j] != '\n',
    decreases i,
{
    if 0 < i && s[i - 1] != '\n' {
        lemma_line_start(s, i - 1);
    }
}

/// A text opens in one place at most.
pub proof fn lemma_opening_unique(s: Seq<char>, c: Convention, d: Convention, k: int, l: int)
    requires
        opens_at(s, c, k),
        opens_at(s, d, l),
    ensures
        k == l,
        c == d,
{
    if k < l {
        assert(is_blank(s[k]));
    }
    if l < k {
        assert(is_blank(s[l]));
    }
}

/// A text is a document with front matter in one way at most.
pub proof fn lemma_split_unique(
    s: Seq<char>,
    c: Convention,
    d: Convention,
    at_end: bool,
    k: int,
    e: int,
    l: int,
    f: int,
)
    requires
        is_split(s, c, at_end, k, e),
        is_split(s, d, at_end, l, f),
    ensures
        c == d,
        k == l,
        e == f,
{
    lemma_opening_unique(s, c, d, k, l);
}

/// The parts of a document are those of its one split.
pub proof fn lemma_front_matter(s: Seq<char>, c: Convention, at_end: bool, k: int, e: int)
    requires
        is_split(s, c, at_end, k, e),
    ensures
        front_matter(s, c, at_end) == Some(parts(s, k, e)),
{
    let (l, f) = choose|l: int, f: int| is_split(s, c, at_end, l, f);
    lemma_split_unique(s, c, c, at_end, k, e, l, f);
}

} // verus!
