use matter::{extract, matter};
use regex::{Captures, Regex};

const YAML: &str = r"^[[:space:]]*\-\-\-\r?\n((?s).*?(?-s))\-\-\-\r?\n((?s).*(?-s))$";
const TOML: &str = r"^[[:space:]]*\+\+\+\r?\n((?s).*?(?-s))\+\+\+\r?\n((?s).*(?-s))$";
const YAML_TO_END: &str = r"^[[:space:]]*\-\-\-\r?\n((?s).*?(?-s))\-\-\-\r?\n?((?s).*(?-s))$";
const TOML_TO_END: &str = r"^[[:space:]]*\+\+\+\r?\n((?s).*?(?-s))\+\+\+\r?\n?((?s).*(?-s))$";

fn first_captures<'a>(expressions: &[Regex], input: &'a str) -> Option<Captures<'a>> {
    expressions.iter().find_map(|expression| expression.captures(input))
}

fn trimmed_groups(found: &Captures) -> (String, String) {
    (found[1].trim().to_string(), found[2].trim().to_string())
}

fn owned(found: Option<(&str, &str)>) -> Option<(String, String)> {
    found.map(|(front, content)| (front.to_string(), content.to_string()))
}

fn is_blank(c: char) -> bool {
    matches!(c, ' ' | '\t' | '\n' | '\u{b}' | '\u{c}' | '\r')
}

/// Whether the closing marker that the expression found stands alone on
/// its line: behind blank characters only, and before the end of the line.
fn closes_alone(input: &str, found: &Captures, to_end: bool) -> bool {
    let body = found.get(1).unwrap();
    let line = match input[..body.end()].rfind('\n') {
        Some(at) => &input[at + 1..body.end()],
        None => &input[..body.end()],
    };
    let behind = &input[body.end() + 3..];
    let ends = behind.starts_with('\n')
        || behind.starts_with("\r\n")
        || (to_end && (behind.is_empty() || behind == "\r"));
    line.chars().all(is_blank) && ends
}

/// Holds the library against the expressions on `input`: where they find a
/// closing marker that stands alone on its line, the parts are the same;
/// where they find nothing, so does the library.
fn compare(strict: &[Regex], to_end: &[Regex], input: &str) -> usize {
    let mut compared = 0;
    match first_captures(strict, input) {
        None => assert_eq!(matter(input), None, "{:?}", input),
        Some(found) => {
            if closes_alone(input, &found, false) {
                assert_eq!(owned(matter(input)), Some(trimmed_groups(&found)), "{:?}", input);
                compared += 1;
            }
        }
    }
    match first_captures(to_end, input) {
        None => assert_eq!(extract(input), None, "{:?}", input),
        Some(found) => {
            if closes_alone(input, &found, true) {
                assert_eq!(extract(input), Some(trimmed_groups(&found)), "{:?}", input);
                compared += 1;
            }
        }
    }
    compared
}

fn expressions(patterns: &[&str]) -> Vec<Regex> {
    patterns.iter().map(|pattern| Regex::new(pattern).unwrap()).collect()
}

const DOCUMENTS: [&str; 30] = [
    "",
    " ",
    "Just plain text.",
    "---",
    "---\n",
    "---\n---",
    "---\n---\n",
    "---\ntitle: a\n---",
    "---\ntitle: a\n---\r",
    "+++\ntitle = \"a\"\n+++\r\nbody",
    "---\ntitle: YAML Frontmatter\n---\n\nThis is some content.\n",
    "+++\ntitle = \"TOML Frontmatter\"\n+++\n\nThis is some content.\n",
    "---\ntext: |\n    line one---line two\n---\n\nBody\n",
    "\n        ---\n        title: YAML Frontmatter\n        ---\n\n        This is some content.\n        ",
    "\n        +++\n        title = \"TOML Frontmatter\"\n        +++\n\n        This is some content.\n        ",
    "---\r\ntitle: a\r\n---\r\nbody\r\n",
    "---\ntitle: no end\n",
    "---\ntitle: a\n+++\nbody\n",
    "...\ntitle: dots\n...\nbody\n",
    "x---\na\n---\nb",
    "--- \na\n---\nb",
    "----\na\n---\nb",
    "---\na\n--- b\n---\nc\n",
    "---\na\n---\nb\n---\nc\n",
    "\u{a0}---\na\n---\nb",
    "---\n\u{a0}\u{2003}title: Rutejìmo\u{3000}\n---\n\u{2028}body\u{1680}\u{feff}\u{200a}\n",
    "  \n\t ---\na: 越\n   ---\n ✓ b",
    "---\ntitle: Yaml Frontmatter --- Revenge of the Unquoted Strings\n---\n\nThis is some content.\n",
    "---\ntitle: ends with the marker ---\nmore: here\n---\nbody\n",
    "---\na: b---c\n---",
];

#[test]
fn agrees_with_the_expressions_on_documents() {
    let strict = expressions(&[YAML, TOML]);
    let to_end = expressions(&[YAML_TO_END, TOML_TO_END]);
    let mut compared = 0;
    for document in DOCUMENTS {
        compared += compare(&strict, &to_end, document);
    }
    assert_eq!(compared, 26);
}

#[test]
fn agrees_with_the_expressions_on_all_short_texts() {
    let strict = expressions(&[YAML, TOML]);
    let to_end = expressions(&[YAML_TO_END, TOML_TO_END]);
    let alphabet = ['-', '\n', ' ', 'x', '\r'];
    let mut compared = 0;
    for length in 0..=10u32 {
        for mut code in 0..alphabet.len().pow(length) {
            let mut text = String::new();
            for _ in 0..length {
                text.push(alphabet[code % alphabet.len()]);
                code /= alphabet.len();
            }
            if text.matches("---").count() >= 2 {
                compared += compare(&strict, &to_end, &text);
            }
        }
    }
    assert_eq!(compared, 491);
}

#[test]
fn agrees_with_the_expressions_on_short_texts_of_either_marker() {
    let strict = expressions(&[YAML, TOML]);
    let to_end = expressions(&[YAML_TO_END, TOML_TO_END]);
    let alphabet = ['-', '+', '\n'];
    let mut compared = 0;
    for length in 0..=12u32 {
        for mut code in 0..alphabet.len().pow(length) {
            let mut text = String::new();
            for _ in 0..length {
                text.push(alphabet[code % alphabet.len()]);
                code /= alphabet.len();
            }
            compared += compare(&strict, &to_end, &text);
        }
    }
    assert_eq!(compared, 1804);
}

/// A step of a linear congruential generator, and a number below `bound`
/// from its high bits.
fn next(state: &mut u64, bound: usize) -> usize {
    *state = state.wrapping_mul(6364136223846793005).wrapping_add(1442695040888963407);
    ((*state >> 33) % bound as u64) as usize
}

#[test]
fn agrees_with_the_expressions_on_generated_texts() {
    let strict = expressions(&[YAML, TOML]);
    let to_end = expressions(&[YAML_TO_END, TOML_TO_END]);
    let pieces = [
        "---", "+++", "\n", "\n", "\n", "\r\n", "\r", " ", "\t", "-", "+", "a", "b: c", "ì", "\u{a0}",
        "...", "\u{b}", "\n---\n", "\n+++\n", "\n  ---\r\n", "\n---",
    ];
    let openings = ["---\n", "+++\n", " \n\t---\r\n", "\n+++\r\n", "", "---", "x"];
    let mut state: u64 = 0x2545f4914f6cdd1d;
    let mut compared = 0;
    for _ in 0..40000 {
        let mut text = String::from(openings[next(&mut state, openings.len())]);
        for _ in 0..next(&mut state, 14) {
            text.push_str(pieces[next(&mut state, pieces.len())]);
        }
        compared += compare(&strict, &to_end, &text);
    }
    assert!(compared > 20000, "{}", compared);
}

#[test]
fn keeps_a_line_that_ends_with_the_marker() {
    let document = "---\ntitle: ends with the marker ---\nmore: here\n---\nbody\n";
    let found = first_captures(&expressions(&[YAML, TOML]), document).unwrap();
    assert!(!closes_alone(document, &found, false));
    assert_eq!(
        trimmed_groups(&found),
        ("title: ends with the marker".to_string(), "more: here\n---\nbody".to_string())
    );
    assert_eq!(matter(document), Some(("title: ends with the marker ---\nmore: here", "body")));
}
