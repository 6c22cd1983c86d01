use matter::extractor::first_of;
use matter::{extract, matter, Config, Convention, ExtractionError, Extractor};

fn all_conventions() -> Extractor {
    Extractor::new(Config { yaml_alternate: true, toml: true, close_at_end: false })
}

#[test]
fn yaml_document() {
    let input = "---\ntitle: YAML Frontmatter\n---\n\nThis is some content.\n";
    assert_eq!(matter(input), Some(("title: YAML Frontmatter", "This is some content.")));
    assert_eq!(
        extract(input),
        Some(("title: YAML Frontmatter".to_string(), "This is some content.".to_string()))
    );
    assert_eq!(
        all_conventions().extract(input),
        Ok(Some(("title: YAML Frontmatter", "This is some content.")))
    );
}

#[test]
fn toml_document() {
    let input = "+++\ntitle = \"TOML Frontmatter\"\n+++\n\nThis is some content.\n";
    assert_eq!(matter(input), Some(("title = \"TOML Frontmatter\"", "This is some content.")));
    assert_eq!(
        extract(input),
        Some(("title = \"TOML Frontmatter\"".to_string(), "This is some content.".to_string()))
    );
}

#[test]
fn toml_document_needs_toml_enabled() {
    let input = "+++\ntitle = \"TOML Frontmatter\"\n+++\n\nThis is some content.\n";
    let without = Extractor::new(Config { yaml_alternate: true, toml: false, close_at_end: false });
    assert_eq!(without.extract(input), Ok(None));
    let with = Extractor::new(Config { yaml_alternate: false, toml: true, close_at_end: false });
    assert_eq!(
        with.extract(input),
        Ok(Some(("title = \"TOML Frontmatter\"", "This is some content.")))
    );
}

#[test]
fn plain_text_has_no_front_matter() {
    assert_eq!(matter("Just plain text."), None);
    assert_eq!(extract("Just plain text."), None);
    assert_eq!(all_conventions().extract("Just plain text."), Ok(None));
}

#[test]
fn empty_input_is_an_error() {
    assert_eq!(all_conventions().extract(""), Err(ExtractionError::EmptyInput));
    assert_eq!(Extractor::new(Config::default()).extract(""), Err(ExtractionError::EmptyInput));
}

#[test]
fn empty_input_has_no_front_matter() {
    assert_eq!(matter(""), None);
    assert_eq!(extract(""), None);
}

#[test]
fn block_scalar_with_marker_amid_a_line() {
    let input = "---\ntext: |\n    line one---line two\n---\n\nBody\n";
    assert_eq!(matter(input), Some(("text: |\n    line one---line two", "Body")));
    assert_eq!(
        extract(input),
        Some(("text: |\n    line one---line two".to_string(), "Body".to_string()))
    );
}

#[test]
fn whitespace_alone_is_no_error_and_no_front_matter() {
    assert_eq!(all_conventions().extract(" "), Ok(None));
    assert_eq!(all_conventions().extract("\n\n\t  \r\n"), Ok(None));
    assert_eq!(matter("   \n"), None);
}

#[test]
fn unclosed_block_is_no_front_matter() {
    assert_eq!(matter("---\ntitle: no end\n"), None);
    assert_eq!(matter("---\ntitle: no end\n+++\nbody\n"), None);
    assert_eq!(extract("---\ntitle: no end\nbody"), None);
    assert_eq!(all_conventions().extract("...\ntitle: no end\n---\n"), Ok(None));
}

#[test]
fn front_matter_without_content() {
    assert_eq!(matter("---\ntitle: alone\n---\n"), Some(("title: alone", "")));
    assert_eq!(matter("---\ntitle: alone\n---\n\n  \n"), Some(("title: alone", "")));
}

#[test]
fn empty_front_matter() {
    assert_eq!(matter("---\n---\nbody"), Some(("", "body")));
    assert_eq!(matter("---\n---\n"), Some(("", "")));
    assert_eq!(matter("---\n\n   \n---\nbody"), Some(("", "body")));
}

#[test]
fn same_input_same_result() {
    let input = "---\na: 1\n---\nbody\n";
    let extractor = all_conventions();
    let first = extractor.extract(input);
    let second = extractor.extract(input);
    assert_eq!(first, Ok(Some(("a: 1", "body"))));
    assert_eq!(first, second);
    assert_eq!(all_conventions().extract(input), first);
    assert_eq!(matter(input), matter(input));
    assert_eq!(extract(input), extract(input));
    assert_eq!(extractor.extract("no front matter"), Ok(None));
    assert_eq!(extractor.extract(input), first);
}

#[test]
fn yaml_alternate_document() {
    let input = "...\ntitle: dots\n...\nbody\n";
    assert_eq!(all_conventions().extract(input), Ok(Some(("title: dots", "body"))));
    let yaml_only = Extractor::new(Config { yaml_alternate: false, toml: false, close_at_end: false });
    assert_eq!(yaml_only.extract(input), Ok(None));
    assert_eq!(matter(input), None);
    assert_eq!(extract(input), None);
}

#[test]
fn conventions_do_not_mix() {
    let extractor = all_conventions();
    assert_eq!(extractor.extract("---\na\n...\nb\n"), Ok(None));
    assert_eq!(extractor.extract("...\na\n---\nb\n"), Ok(None));
    assert_eq!(extractor.extract("+++\na\n---\nb\n"), Ok(None));
    assert_eq!(extractor.extract("---\na\n+++\nb\n"), Ok(None));
    assert_eq!(extractor.extract("---\na\n...\nb\n---\nc\n"), Ok(Some(("a\n...\nb", "c"))));
    assert_eq!(extractor.extract("...\na\n---\nb\n...\nc\n"), Ok(Some(("a\n---\nb", "c"))));
    assert_eq!(extractor.extract("+++\na\n...\n---\nb\n+++\nc\n"), Ok(Some(("a\n...\n---\nb", "c"))));
}

#[test]
fn marker_behind_text_does_not_close() {
    let input = "---\ntitle: Yaml Frontmatter --- Revenge of the Unquoted Strings\n---\nbody\n";
    assert_eq!(
        matter(input),
        Some(("title: Yaml Frontmatter --- Revenge of the Unquoted Strings", "body"))
    );
    let input = "---\ntitle: ends with the marker ---\nmore: here\n---\nbody\n";
    assert_eq!(matter(input), Some(("title: ends with the marker ---\nmore: here", "body")));
    assert_eq!(
        extract(input),
        Some(("title: ends with the marker ---\nmore: here".to_string(), "body".to_string()))
    );
    assert_eq!(matter("---\nkey: value---\nbody\n"), None);
}

#[test]
fn marker_before_text_does_not_close() {
    assert_eq!(matter("---\na\n--- b\n---\nc\n"), Some(("a\n--- b", "c")));
    assert_eq!(matter("---\na\n----\n---\nc\n"), Some(("a\n----", "c")));
    assert_eq!(matter("---\na\n--- \nc\n"), None);
    assert_eq!(extract("---\na\n---b"), None);
    assert_eq!(extract("---\na\n--- "), None);
}

#[test]
fn first_closing_line_ends_the_front_matter() {
    assert_eq!(matter("---\na\n---\nb\n---\nc\n"), Some(("a", "b\n---\nc")));
    assert_eq!(matter("+++\na\n+++\n+++\n"), Some(("a", "+++")));
}

#[test]
fn multi_line_values_are_kept_as_they_stand() {
    let input = "---\ntext: |\n  first --- line\n\n  second +++ line\n  third ... line\nlist:\n  - a\n  - b\n---\nBody\n";
    let expected = "text: |\n  first --- line\n\n  second +++ line\n  third ... line\nlist:\n  - a\n  - b";
    assert_eq!(matter(input), Some((expected, "Body")));
    assert_eq!(all_conventions().extract(input), Ok(Some((expected, "Body"))));
}

#[test]
fn markers_may_be_indented() {
    assert_eq!(matter("  \n\t ---\na\n   ---\nb"), Some(("a", "b")));
    assert_eq!(matter("\n\n---\na\n\t---\n  b  "), Some(("a", "b")));
    assert_eq!(matter("\u{b}\u{c}\r---\na\n\u{b}\u{c}\r---\nb"), Some(("a", "b")));
}

#[test]
fn opening_marker_needs_its_own_line() {
    assert_eq!(matter("x---\na\n---\nb"), None);
    assert_eq!(matter("--- \na\n---\nb"), None);
    assert_eq!(matter("----\na\n---\nb"), None);
    assert_eq!(matter("--\na\n---\nb"), None);
    assert_eq!(matter("---a\n---\nb"), None);
    assert_eq!(matter("---"), None);
    assert_eq!(matter("---\n"), None);
    assert_eq!(extract("---"), None);
    assert_eq!(matter("\u{a0}---\na\n---\nb"), None);
}

#[test]
fn carriage_returns_before_line_feeds() {
    assert_eq!(matter("---\r\ntitle: a\r\n---\r\nbody\r\n"), Some(("title: a", "body")));
    assert_eq!(matter("---\r\ntitle: a\n---\nbody"), Some(("title: a", "body")));
    assert_eq!(matter("---\ntitle: a\r\n---\r\nbody"), Some(("title: a", "body")));
    assert_eq!(matter("---\rtitle: a\n---\nbody"), None);
    assert_eq!(matter("---\r\r\ntitle: a\n---\nbody"), None);
    assert_eq!(matter("---\ntitle: a\n---\rbody\n"), None);
}

#[test]
fn closing_marker_at_the_end_of_the_text() {
    let input = "---\ntitle: a\n---";
    assert_eq!(extract(input), Some(("title: a".to_string(), "".to_string())));
    assert_eq!(matter(input), None);
    let strict = Extractor::new(Config { yaml_alternate: false, toml: true, close_at_end: false });
    let lenient = Extractor::new(Config { yaml_alternate: false, toml: true, close_at_end: true });
    assert_eq!(strict.extract(input), Ok(None));
    assert_eq!(lenient.extract(input), Ok(Some(("title: a", ""))));
    assert_eq!(lenient.extract("---\ntitle: a\n---\r"), Ok(Some(("title: a", ""))));
    assert_eq!(strict.extract("---\ntitle: a\n---\r"), Ok(None));
    assert_eq!(lenient.extract("---\ntitle: a\n---\nbody"), Ok(Some(("title: a", "body"))));
    assert_eq!(lenient.extract("---\n---"), Ok(Some(("", ""))));
}

#[test]
fn text_beyond_ascii() {
    let input = "---\ntitle: Rutejìmo\nauthor: 越\n---\n\n  Ünïcödé — content ✓\n";
    assert_eq!(
        matter(input),
        Some(("title: Rutejìmo\nauthor: 越", "Ünïcödé — content ✓"))
    );
    assert_eq!(
        extract(input),
        Some(("title: Rutejìmo\nauthor: 越".to_string(), "Ünïcödé — content ✓".to_string()))
    );
}

#[test]
fn parts_are_trimmed_of_all_whitespace() {
    let input = "---\n\u{a0}\u{2003}title: a\u{3000}\n---\n\u{2028}\u{85}body\u{1680}\u{feff}\u{200a}\n";
    assert_eq!(matter(input), Some(("title: a", "body\u{1680}\u{feff}")));
    let input = "---\n \t a  b \n\n---\n\n\n c\td \n\n";
    assert_eq!(matter(input), Some(("a  b", "c\td")));
}

#[test]
fn default_configuration() {
    let config = Config::default();
    assert_eq!(config, Config { yaml_alternate: false, toml: true, close_at_end: false });
    let extractor = Extractor::new(config);
    assert_eq!(extractor.extract("+++\na\n+++\nb"), Ok(Some(("a", "b"))));
    assert_eq!(extractor.extract("...\na\n...\nb"), Ok(None));
    assert_eq!(extractor.extract("---\na\n---"), Ok(None));
}

#[test]
fn error_in_words() {
    assert_eq!(ExtractionError::EmptyInput.describe(), "the input is empty");
}

#[test]
fn conventions_are_tried_in_their_order() {
    let yaml = "---\na\n---\nb";
    let toml = "+++\na\n+++\nb";
    let dots = "...\na\n...\nb";
    let all = [Convention::Yaml, Convention::YamlAlternate, Convention::Toml];
    for text in [yaml, toml, dots] {
        assert_eq!(first_of(&all, false, text), Some(("a", "b")));
    }
    let turned = [Convention::Toml, Convention::YamlAlternate, Convention::Yaml];
    for text in [yaml, toml, dots] {
        assert_eq!(first_of(&turned, false, text), Some(("a", "b")));
    }
    assert_eq!(first_of(&[Convention::Toml], false, yaml), None);
    assert_eq!(first_of(&[Convention::Toml, Convention::Toml], false, toml), Some(("a", "b")));
    assert_eq!(first_of(&[], false, yaml), None);
    assert_eq!(first_of(&all, false, ""), None);
    assert_eq!(first_of(&all, false, "---\na\n---"), None);
    assert_eq!(first_of(&all, true, "---\na\n---"), Some(("a", "")));
}

#[test]
fn parts_are_borrowed_from_the_input() {
    let input = String::from("---\n a \n---\n b \n");
    let (front, content) = matter(&input).unwrap();
    assert_eq!((front, content), ("a", "b"));
    assert_eq!(front.as_ptr() as usize, input.as_ptr() as usize + 5);
    assert_eq!(content.as_ptr() as usize, input.as_ptr() as usize + 13);
}

#[test]
fn documents_of_the_least_length() {
    assert_eq!(matter("---\n---"), None);
    assert_eq!(extract("---\n---"), Some((String::new(), String::new())));
    assert_eq!(extract("---\n--"), None);
    assert_eq!(extract("--\n---"), None);
    assert_eq!(matter("---\n---\n"), Some(("", "")));
}
