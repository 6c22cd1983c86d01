//! What holds of extraction on every text.

use crate::classes::{is_blank, is_whitespace, lemma_blank_is_whitespace};
use crate::extractor::{extraction, Config};
use crate::grammar::{
    all_blank, body_start, closes_at, ends_line, first_match, front_matter, is_split,
    lemma_front_matter, lemma_line_start, lemma_opening_unique, line_start, marker_at, next_line,
    opens_at, parts, Convention,
};
use crate::trim::{lemma_trimmed, lemma_trimmed_unique, skip_forward, trimmed};
use vstd::prelude::*;

verus! {

/// The pattern set holds the enabled conventions and no others.
pub proof fn lemma_pattern_set(config: Config, c: Convention)
    ensures
        config.enables(c) <==> config.pattern_set().contains(c),
{
    let set = config.pattern_set();
    assert(set[0] == Convention::Yaml);
    if config.yaml_alternate {
        assert(set[1] == Convention::YamlAlternate);
    }
    if config.toml {
        assert(set[set.len() - 1] == Convention::Toml);
    }
}

/// Under two different conventions a text cannot carry front matter: what
/// reads as a document under one never does under another.
pub proof fn law_conventions_exclusive(
    s: Seq<char>,
    c: Convention,
    d: Convention,
    c_at_end: bool,
    d_at_end: bool,
)
    requires
        c != d,
        front_matter(s, c, c_at_end) is Some,
    ensures
        front_matter(s, d, d_at_end) is None,
{
    let (k, e) = choose|k: int, e: int| is_split(s, c, c_at_end, k, e);
    if front_matter(s, d, d_at_end) is Some {
        let (l, f) = choose|l: int, f: int| is_split(s, d, d_at_end, l, f);
        lemma_opening_unique(s, c, d, k, l);
    }
}

/// Nothing from index `i` of `set` on makes front matter of `s`, save `c`.
proof fn lemma_first_match_only(
    s: Seq<char>,
    set: Seq<Convention>,
    at_end: bool,
    c: Convention,
    i: int,
)
    requires
        0 <= i <= set.len(),
        front_matter(s, c, at_end) is Some,
    ensures
        first_match(s, set, at_end, i) == if exists|j: int| i <= j < set.len() && set[j] == c {
            front_matter(s, c, at_end)
        } else {
            None
        },
    decreases set.len() - i,
{
    if i < set.len() {
        lemma_first_match_only(s, set, at_end, c, i + 1);
        if set[i] != c {
            law_conventions_exclusive(s, c, set[i], at_end, at_end);
            if exists|j: int| i <= j < set.len() && set[j] == c {
                let j = choose|j: int| i <= j < set.len() && set[j] == c;
                assert(i + 1 <= j < set.len() && set[j] == c);
            }
        }
    }
}

/// A document with front matter under an enabled convention is split at its
/// two marker lines: the front matter is the trimmed text between them, the
/// content the trimmed text behind the closing one.
pub proof fn law_document_is_split(s: Seq<char>, config: Config, c: Convention, k: int, e: int)
    requires
        config.enables(c),
        is_split(s, c, config.close_at_end, k, e),
    ensures
        extraction(s, config) == Some(parts(s, k, e)),
{
    lemma_front_matter(s, c, config.close_at_end, k, e);
    lemma_pattern_set(config, c);
    let set = config.pattern_set();
    let j = choose|j: int| 0 <= j < set.len() && set[j] == c;
    lemma_first_match_only(s, set, config.close_at_end, c, 0);
}

/// Nothing from index `i` of `set` on makes front matter of `s`.
proof fn lemma_first_match_none(s: Seq<char>, set: Seq<Convention>, at_end: bool, i: int)
    requires
        0 <= i <= set.len(),
        forall|j: int| i <= j < set.len() ==> front_matter(s, #[trigger] set[j], at_end) is None,
    ensures
        first_match(s, set, at_end, i) is None,
    decreases set.len() - i,
{
    if i < set.len() {
        lemma_first_match_none(s, set, at_end, i + 1);
    }
}

/// A text of fewer than seven characters, the empty text among them, has
/// no room for two marker lines and carries no front matter.
pub proof fn law_short_text(s: Seq<char>, config: Config)
    requires
        s.len() < 7,
    ensures
        extraction(s, config) is None,
{
    let set = config.pattern_set();
    assert forall|j: int| 0 <= j < set.len() implies front_matter(
        s,
        #[trigger] set[j],
        config.close_at_end,
    ) is None by {
        assert forall|k: int, e: int| !is_split(s, set[j], config.close_at_end, k, e) by {
            if is_split(s, set[j], config.close_at_end, k, e) {
                assert(marker_at(s, set[j], k));
                assert(marker_at(s, set[j], e));
                assert(body_start(s, k) >= k + 4);
            }
        }
    }
    lemma_first_match_none(s, set, config.close_at_end, 0);
}

/// A text that opens with the marker of no enabled convention carries no
/// front matter.
pub proof fn law_unopened_text(s: Seq<char>, config: Config)
    requires
        forall|c: Convention, k: int| config.enables(c) ==> !opens_at(s, c, k),
    ensures
        extraction(s, config) is None,
{
    let set = config.pattern_set();
    assert forall|j: int| 0 <= j < set.len() implies front_matter(
        s,
        #[trigger] set[j],
        config.close_at_end,
    ) is None by {
        lemma_pattern_set(config, set[j]);
        assert forall|k: int, e: int| !is_split(s, set[j], config.close_at_end, k, e) by {
            assert(!opens_at(s, set[j], k));
        }
    }
    lemma_first_match_none(s, set, config.close_at_end, 0);
}

/// A text whose first character that is not blank does not start the marker
/// of an enabled convention carries no front matter. `k` is the index of
/// that character, or the length of a text that is blank throughout.
pub proof fn law_no_leading_marker(s: Seq<char>, config: Config, k: int)
    requires
        0 <= k <= s.len(),
        all_blank(s, 0, k),
        k < s.len() ==> !is_blank(s[k]),
        forall|c: Convention| config.enables(c) ==> !marker_at(s, c, k),
    ensures
        extraction(s, config) is None,
{
    assert forall|c: Convention, l: int| config.enables(c) implies !opens_at(s, c, l) by {
        if opens_at(s, c, l) {
            if l < k {
                assert(is_blank(s[l]));
            } else if k < l {
                assert(is_blank(s[k]));
            }
        }
    }
    law_unopened_text(s, config);
}

/// A text without a closing line of any enabled convention carries no front
/// matter.
pub proof fn law_unclosed_text(s: Seq<char>, config: Config)
    requires
        forall|c: Convention, e: int|
            config.enables(c) ==> !closes_at(s, c, e, config.close_at_end),
    ensures
        extraction(s, config) is None,
{
    let set = config.pattern_set();
    assert forall|j: int| 0 <= j < set.len() implies front_matter(
        s,
        #[trigger] set[j],
        config.close_at_end,
    ) is None by {
        lemma_pattern_set(config, set[j]);
        assert forall|k: int, e: int| !is_split(s, set[j], config.close_at_end, k, e) by {
            assert(!closes_at(s, set[j], e, config.close_at_end));
        }
    }
    lemma_first_match_none(s, set, config.close_at_end, 0);
}

/// Where a convention of `set`, from index `i` on, makes front matter of
/// `s`, one of them splits `s`, and the parts are what was made.
proof fn lemma_first_match_some(s: Seq<char>, set: Seq<Convention>, at_end: bool, i: int)
    requires
        0 <= i <= set.len(),
        first_match(s, set, at_end, i) is Some,
    ensures
        exists|j: int, k: int, e: int|
            i <= j < set.len() && is_split(s, set[j], at_end, k, e) && first_match(
                s,
                set,
                at_end,
                i,
            ) == Some(parts(s, k, e)),
    decreases set.len() - i,
{
    if front_matter(s, set[i], at_end) is Some {
        let (k, e) = choose|k: int, e: int| is_split(s, set[i], at_end, k, e);
        assert(is_split(s, set[i], at_end, k, e));
    } else {
        lemma_first_match_some(s, set, at_end, i + 1);
        let (j, k, e) = choose|j: int, k: int, e: int|
            i + 1 <= j < set.len() && is_split(s, set[j], at_end, k, e) && first_match(
                s,
                set,
                at_end,
                i + 1,
            ) == Some(parts(s, k, e));
        assert(i <= j < set.len() && is_split(s, set[j], at_end, k, e));
    }
}

/// What extraction finds is what an enabled convention makes of a document:
/// the trimmed text between its two marker lines, and the trimmed text
/// behind them.
pub proof fn law_found_is_split(s: Seq<char>, config: Config)
    requires
        extraction(s, config) is Some,
    ensures
        exists|c: Convention, k: int, e: int|
            config.enables(c) && is_split(s, c, config.close_at_end, k, e) && extraction(s, config)
                == Some(parts(s, k, e)),
{
    let set = config.pattern_set();
    let at_end = config.close_at_end;
    lemma_first_match_some(s, set, at_end, 0);
    let (j, k, e) = choose|j: int, k: int, e: int|
        0 <= j < set.len() && is_split(s, set[j], at_end, k, e) && first_match(s, set, at_end, 0)
            == Some(parts(s, k, e));
    lemma_pattern_set(config, set[j]);
    assert(config.enables(set[j]) && is_split(s, set[j], at_end, k, e));
}

/// `found` is a fair result for the text `s`: either the parts of `s` as a
/// document with front matter under an enabled convention, or nothing where
/// `s` is no such document under any of them.
pub open spec fn is_result(
    s: Seq<char>,
    config: Config,
    found: Option<(Seq<char>, Seq<char>)>,
) -> bool {
    match found {
        Some(pair) => exists|c: Convention, k: int, e: int|
            config.enables(c) && is_split(s, c, config.close_at_end, k, e) && pair == parts(
                s,
                k,
                e,
            ),
        None => forall|c: Convention, k: int, e: int|
            config.enables(c) ==> !is_split(s, c, config.close_at_end, k, e),
    }
}

/// What extraction makes of a text is a fair result for it.
pub proof fn law_extraction_is_result(s: Seq<char>, config: Config)
    ensures
        is_result(s, config, extraction(s, config)),
{
    if extraction(s, config) is Some {
        law_found_is_split(s, config);
    } else {
        assert forall|c: Convention, k: int, e: int| config.enables(c) implies !is_split(
            s,
            c,
            config.close_at_end,
            k,
            e,
        ) by {
            if is_split(s, c, config.close_at_end, k, e) {
                law_document_is_split(s, config, c, k, e);
            }
        }
    }
}

/// A text has one fair result under one configuration, so that running
/// extraction again on the same text always finds the same.
pub proof fn law_one_result(
    s: Seq<char>,
    config: Config,
    first: Option<(Seq<char>, Seq<char>)>,
    second: Option<(Seq<char>, Seq<char>)>,
)
    requires
        is_result(s, config, first),
        is_result(s, config, second),
    ensures
        first == second,
        first == extraction(s, config),
{
    law_extraction_is_result(s, config);
    lemma_result_is_extraction(s, config, first);
    lemma_result_is_extraction(s, config, second);
}

/// A fair result for a text is what extraction makes of it.
proof fn lemma_result_is_extraction(
    s: Seq<char>,
    config: Config,
    found: Option<(Seq<char>, Seq<char>)>,
)
    requires
        is_result(s, config, found),
    ensures
        found == extraction(s, config),
{
    match found {
        Some(pair) => {
            let (c, k, e) = choose|c: Convention, k: int, e: int|
                config.enables(c) && is_split(s, c, config.close_at_end, k, e) && pair == parts(
                    s,
                    k,
                    e,
                );
            law_document_is_split(s, config, c, k, e);
        },
        None => {
            if extraction(s, config) is Some {
                law_found_is_split(s, config);
            }
        },
    }
}

/// The text `t` stands in `s` at index `i`, character for character.
pub open spec fn stands_at(s: Seq<char>, t: Seq<char>, i: int) -> bool {
    &&& 0 <= i
    &&& i + t.len() <= s.len()
    &&& t == s.subrange(i, i + t.len())
}

/// Both parts of a document stand in its text, character for character:
/// the front matter between the two marker lines, the content behind them.
/// Neither starts or ends with whitespace.
pub proof fn law_parts_verbatim(s: Seq<char>, c: Convention, at_end: bool, k: int, e: int)
    requires
        is_split(s, c, at_end, k, e),
    ensures
        ({
            let (front, content) = parts(s, k, e);
            &&& exists|i: int|
                body_start(s, k) <= i && i + front.len() <= e && stands_at(s, front, i)
            &&& exists|j: int| next_line(s, e + 3) <= j && stands_at(s, content, j)
            &&& front.len() > 0 ==> !is_whitespace(front[0]) && !is_whitespace(front.last())
            &&& content.len() > 0 ==> !is_whitespace(content[0]) && !is_whitespace(
                content.last(),
            )
        }),
{
    let (front, content) = parts(s, k, e);
    let b = body_start(s, k);
    let r = next_line(s, e + 3);
    let body = s.subrange(b, e);
    let rest = s.subrange(r, s.len() as int);
    lemma_trimmed(body);
    lemma_trimmed(rest);
    let i = b + skip_forward(body, 0, body.len() as int);
    let j = r + skip_forward(rest, 0, rest.len() as int);
    assert(front =~= s.subrange(i, i + front.len()));
    assert(content =~= s.subrange(j, j + content.len()));
    assert(body_start(s, k) <= i && i + front.len() <= e && stands_at(s, front, i));
    assert(next_line(s, e + 3) <= j && stands_at(s, content, j));
}

/// The blank characters before a closing marker are no part of the front
/// matter: it is the trimmed text between the opening line and the closing
/// line.
pub proof fn law_closing_indentation_dropped(
    s: Seq<char>,
    c: Convention,
    at_end: bool,
    k: int,
    e: int,
)
    requires
        is_split(s, c, at_end, k, e),
    ensures
        body_start(s, k) <= line_start(s, e) <= e,
        parts(s, k, e).0 == trimmed(s.subrange(body_start(s, k), line_start(s, e))),
{
    let b = body_start(s, k);
    let p = line_start(s, e);
    lemma_line_start(s, e);
    if p < b {
        assert(s[b - 1] == '\n');
    }
    let lines = s.subrange(b, p);
    let body = s.subrange(b, e);
    lemma_trimmed(lines);
    let a = skip_forward(lines, 0, lines.len() as int);
    let z = a + trimmed(lines).len();
    assert forall|j: int| z <= j < body.len() implies is_whitespace(#[trigger] body[j]) by {
        if j < lines.len() {
            assert(body[j] == lines[j]);
        } else {
            assert(body[j] == s[b + j]);
            assert(is_blank(s[b + j]));
            lemma_blank_is_whitespace(s[b + j]);
        }
    }
    assert forall|j: int| 0 <= j < a implies is_whitespace(#[trigger] body[j]) by {
        assert(body[j] == lines[j]);
    }
    if a < z {
        assert(body[a] == lines[a]);
        assert(body[z - 1] == lines[z - 1]);
        assert(trimmed(lines)[0] == lines[a]);
        assert(trimmed(lines)[z - a - 1] == lines[z - 1]);
    }
    lemma_trimmed_unique(body, a, z);
    assert(body.subrange(a, z) =~= lines.subrange(a, z));
}

/// A marker behind other text on its line closes nothing: where a character
/// that is not blank stands at `p`, before the marker at `e` and on the
/// same line, `e` is no closing line.
pub proof fn law_marker_behind_text(s: Seq<char>, c: Convention, e: int, p: int, at_end: bool)
    requires
        line_start(s, e) <= p < e,
        !is_blank(s[p]),
    ensures
        !closes_at(s, c, e, at_end),
{
}

/// A marker before other text on its line closes nothing: where the
/// character behind the marker at `e` is neither a line feed nor a carriage
/// return, `e` is no closing line.
pub proof fn law_marker_before_text(s: Seq<char>, c: Convention, e: int, at_end: bool)
    requires
        e + 3 < s.len(),
        s[e + 3] != '\n',
        s[e + 3] != '\r',
    ensures
        !closes_at(s, c, e, at_end),
{
}

/// A marker line of `c`: the marker, then a carriage return where `cr`
/// says so, then a line feed where `lf` says so.
pub open spec fn fence(c: Convention, cr: bool, lf: bool) -> Seq<char> {
    seq![c.marker(), c.marker(), c.marker()] + (if cr {
        seq!['\r']
    } else {
        Seq::empty()
    }) + (if lf {
        seq!['\n']
    } else {
        Seq::empty()
    })
}

/// `body` can stand between two marker lines of `c`: no line of it is a
/// closing line, and what stands behind its last line feed is blank.
pub open spec fn fits_between(body: Seq<char>, c: Convention) -> bool {
    &&& forall|j: int| !closes_at(body, c, j, false)
    &&& all_blank(body, line_start(body, body.len() as int), body.len() as int)
}

/// Behind a line feed at `b - 1`, the lines of `s` start where those of the
/// text that stands at `b` do.
proof fn lemma_line_start_behind(s: Seq<char>, body: Seq<char>, b: int, j: int)
    requires
        0 < b,
        b + body.len() <= s.len(),
        s[b - 1] == '\n',
        forall|i: int| 0 <= i < body.len() ==> s[b + i] == #[trigger] body[i],
        0 <= j <= body.len(),
    ensures
        line_start(s, b + j) == b + line_start(body, j),
    decreases j,
{
    if j > 0 {
        assert(s[b + (j - 1)] == body[j - 1]);
        if body[j - 1] != '\n' {
            lemma_line_start_behind(s, body, b, j - 1);
        }
    }
}

/// A closing line of `s` within a body that stands at `b`, before its blank
/// last line, is a closing line of the body.
proof fn lemma_closing_line_within(
    s: Seq<char>,
    body: Seq<char>,
    c: Convention,
    at_end: bool,
    b: int,
    j: int,
)
    requires
        0 < b,
        b + body.len() <= s.len(),
        s[b - 1] == '\n',
        forall|i: int| 0 <= i < body.len() ==> s[b + i] == #[trigger] body[i],
        all_blank(body, line_start(body, body.len() as int), body.len() as int),
        0 <= j < body.len(),
        closes_at(s, c, b + j, at_end),
    ensures
        closes_at(body, c, j, false),
{
    let n = body.len() as int;
    let last = line_start(body, n);
    lemma_line_start(body, n);
    assert(s[b + j] == body[j]);
    if j >= last {
        assert(is_blank(body[j]));
    }
    assert(body[last - 1] == '\n');
    assert(s[b + (j + 1)] == body[j + 1]);
    assert(s[b + (j + 2)] == body[j + 2]);
    assert(s[b + (j + 3)] == body[j + 3]);
    assert(marker_at(body, c, j));
    if body[j + 3] != '\n' {
        assert(s[b + (j + 4)] == body[j + 4]);
    }
    assert(ends_line(body, j + 3, false));
    lemma_line_start_behind(s, body, b, j);
    assert forall|i: int| line_start(body, j) <= i < j implies is_blank(#[trigger] body[i]) by {
        lemma_line_start(body, j);
        assert(s[b + i] == body[i]);
        assert(is_blank(s[b + i]));
    }
}

/// A text that opens at `k`, holds a body that fits between two marker
/// lines from there on, and a marker line behind that body, is a document
/// with front matter, closed by that marker line.
proof fn lemma_body_in_place(
    s: Seq<char>,
    c: Convention,
    at_end: bool,
    k: int,
    e: int,
    body: Seq<char>,
)
    requires
        opens_at(s, c, k),
        e == body_start(s, k) + body.len(),
        e <= s.len(),
        s.subrange(body_start(s, k), e) == body,
        fits_between(body, c),
        marker_at(s, c, e),
        ends_line(s, e + 3, at_end),
    ensures
        is_split(s, c, at_end, k, e),
{
    let b = body_start(s, k);
    assert(s[b - 1] == '\n');
    assert forall|i: int| 0 <= i < body.len() implies s[b + i] == #[trigger] body[i] by {
        assert(s.subrange(b, e)[i] == s[b + i]);
    }
    assert(closes_at(s, c, e, at_end)) by {
        lemma_line_start_behind(s, body, b, body.len() as int);
        assert forall|i: int| line_start(s, e) <= i < e implies is_blank(#[trigger] s[i]) by {
            lemma_line_start(body, body.len() as int);
            assert(s[b + (i - b)] == body[i - b]);
            assert(is_blank(body[i - b]));
        }
    }
    assert forall|j: int| b <= j < e implies !closes_at(s, c, j, at_end) by {
        if closes_at(s, c, j, at_end) {
            lemma_closing_line_within(s, body, c, at_end, b, j - b);
        }
    }
}

/// A text put together from blank characters, an opening marker line, a
/// body that fits between two marker lines, a closing marker line and any
/// content is split into that body and that content, both trimmed.
///
/// The closing line may go without its line feed where the configuration
/// lets a closing line end the text and nothing follows it.
pub proof fn law_assembled_document(
    config: Config,
    c: Convention,
    lead: Seq<char>,
    cr_open: bool,
    body: Seq<char>,
    cr_close: bool,
    lf_close: bool,
    content: Seq<char>,
)
    requires
        config.enables(c),
        all_blank(lead, 0, lead.len() as int),
        fits_between(body, c),
        lf_close || (config.close_at_end && content.len() == 0),
    ensures
        extraction(
            lead + fence(c, cr_open, true) + body + fence(c, cr_close, lf_close) + content,
            config,
        ) == Some((trimmed(body), trimmed(content))),
{
    let open = fence(c, cr_open, true);
    let close = fence(c, cr_close, lf_close);
    let s = lead + open + body + close + content;
    let at_end = config.close_at_end;
    let k = lead.len() as int;
    let b = k + open.len();
    let e = b + body.len();
    let r = e + close.len();
    assert(s.len() == r + content.len());
    assert(s.subrange(0, k) =~= lead);
    assert(s.subrange(k, b) =~= open);
    assert(s.subrange(b, e) =~= body);
    assert(s.subrange(e, r) =~= close);
    assert(s.subrange(r, s.len() as int) =~= content);
    assert(opens_at(s, c, k) && body_start(s, k) == b) by {
        assert forall|i: int| 0 <= i < k implies is_blank(#[trigger] s[i]) by {
            assert(s.subrange(0, k)[i] == s[i]);
        }
        assert forall|i: int| 0 <= i < open.len() implies s[k + i] == open[i] by {
            assert(s.subrange(k, b)[i] == s[k + i]);
        }
        assert(s[k] == open[0] && s[k + 1] == open[1] && s[k + 2] == open[2]);
        assert(s[k + 3] == open[3]);
        if cr_open {
            assert(s[k + 4] == open[4]);
        }
    }
    assert(marker_at(s, c, e) && ends_line(s, e + 3, at_end) && next_line(s, e + 3) == r) by {
        assert forall|i: int| 0 <= i < close.len() implies s[e + i] == close[i] by {
            assert(s.subrange(e, r)[i] == s[e + i]);
        }
        assert(s[e] == close[0] && s[e + 1] == close[1] && s[e + 2] == close[2]);
        if cr_close || lf_close {
            assert(s[e + 3] == close[3]);
        }
        if cr_close && lf_close {
            assert(s[e + 4] == close[4]);
        }
    }
    lemma_body_in_place(s, c, at_end, k, e, body);
    law_document_is_split(s, config, c, k, e);
}

} // verus!
