//! The extractor: a fixed, ordered set of conventions, tried in turn.

use crate::grammar::{first_match, is_split, lemma_front_matter, sections, Convention};
use crate::scan::split;
use crate::trim::trim;
use vstd::prelude::*;

verus! {

/// Which conventions an extractor knows besides `---`, and how a closing
/// line may end.
#[derive(Clone, Copy, Debug, PartialEq, Eq, Structural)]
pub struct Config {
    /// Whether `...` fences front matter too.
    pub yaml_alternate: bool,
    /// Whether `+++` fences front matter too.
    pub toml: bool,
    /// Whether the closing line may end with the text, without a line break.
    pub close_at_end: bool,
}

impl Config {
    /// The conventions in the order in which they are tried: `---` first,
    /// then `...` and `+++` where they are enabled.
    pub open spec fn pattern_set(self) -> Seq<Convention> {
        seq![Convention::Yaml] + (if self.yaml_alternate {
            seq![Convention::YamlAlternate]
        } else {
            Seq::empty()
        }) + (if self.toml {
            seq![Convention::Toml]
        } else {
            Seq::empty()
        })
    }

    /// Whether `c` is one of the conventions of the pattern set.
    pub open spec fn enables(self, c: Convention) -> bool {
        match c {
            Convention::Yaml => true,
            Convention::YamlAlternate => self.yaml_alternate,
            Convention::Toml => self.toml,
        }
    }

    /// `---` and `+++`, with a line break required behind the closing marker.
    pub open spec fn standard() -> Config {
        Config { yaml_alternate: false, toml: true, close_at_end: false }
    }

    /// `---` and `+++`, with a closing marker that may also end the text.
    pub open spec fn lenient() -> Config {
        Config { yaml_alternate: false, toml: true, close_at_end: true }
    }
}

impl Default for Config {
    fn default() -> (config: Config)
        ensures
            config == Config::standard(),
    {
        Config { yaml_alternate: false, toml: true, close_at_end: false }
    }
}

/// What extraction makes of the text `s` under `config`: the front matter
/// and the content by the first convention of the pattern set under which
/// `s` is a document with front matter, or nothing where there is none.
pub open spec fn extraction(s: Seq<char>, config: Config) -> Option<(Seq<char>, Seq<char>)> {
    first_match(s, config.pattern_set(), config.close_at_end, 0)
}

/// Why a text was refused.
#[derive(Clone, Copy, Debug, PartialEq, Eq, Structural)]
pub enum ExtractionError {
    /// The text has no characters at all.
    EmptyInput,
}

impl ExtractionError {
    /// The error in words.
    pub fn describe(&self) -> (text: &'static str)
        ensures
            text@ == "the input is empty"@,
    {
        match self {
            ExtractionError::EmptyInput => "the input is empty",
        }
    }
}

/// Splits documents into front matter and content.
pub struct Extractor {
    config: Config,
    patterns: Vec<Convention>,
}

impl Extractor {
    #[verifier::type_invariant]
    spec fn well_formed(self) -> bool {
        self.patterns@ == self.config.pattern_set()
    }

    /// The configuration this extractor was made with.
    pub closed spec fn config(self) -> Config {
        self.config
    }

    /// An extractor for the conventions that `config` enables.
    pub fn new(config: Config) -> (extractor: Extractor)
        ensures
            extractor.config() == config,
    {
        let mut patterns: Vec<Convention> = Vec::new();
        patterns.push(Convention::Yaml);
        if config.yaml_alternate {
            patterns.push(Convention::YamlAlternate);
        }
        if config.toml {
            patterns.push(Convention::Toml);
        }
        assert(patterns@ =~= config.pattern_set());
        Extractor { config, patterns }
    }

    /// Splits `input` into its front matter and its content, both trimmed.
    ///
    /// An empty input is an error. An input that is no document with front
    /// matter under any enabled convention gives `None`.
    pub fn extract<'a>(&self, input: &'a str) -> (r: Result<
        Option<(&'a str, &'a str)>,
        ExtractionError,
    >)
        ensures
            match r {
                Err(error) => input@.len() == 0 && error == ExtractionError::EmptyInput,
                Ok(Some((front, content))) => input@.len() > 0 && extraction(
                    input@,
                    self.config(),
                ) == Some((front@, content@)),
                Ok(None) => input@.len() > 0 && extraction(input@, self.config()) is None,
            },
    {
        proof {
            use_type_invariant(self);
        }
        if input.is_empty() {
            return Err(ExtractionError::EmptyInput);
        }
        Ok(first_of(self.patterns.as_slice(), self.config.close_at_end, input))
    }
}

/// What the first convention of `patterns` under which `input` is a
/// document with front matter makes of it: its front matter and its
/// content, both trimmed and borrowed from `input`.
pub fn first_of<'a>(patterns: &[Convention], at_end: bool, input: &'a str) -> (r: Option<
    (&'a str, &'a str),
>)
    ensures
        match r {
            Some((front, content)) => first_match(input@, patterns@, at_end, 0) == Some(
                (front@, content@),
            ),
            None => first_match(input@, patterns@, at_end, 0) is None,
        },
{
    let mut i: usize = 0;
    while i < patterns.len()
        invariant
            i <= patterns@.len(),
            first_match(input@, patterns@, at_end, 0) == first_match(
                input@,
                patterns@,
                at_end,
                i as int,
            ),
        decreases patterns@.len() - i,
    {
        let c = patterns[i];
        match split(input, c, at_end) {
            Some((body, rest)) => {
                proof {
                    let (k, e) = choose|k: int, e: int|
                        is_split(input@, c, at_end, k, e) && (body@, rest@) == sections(
                            input@,
                            k,
                            e,
                        );
                    lemma_front_matter(input@, c, at_end, k, e);
                }
                return Some((trim(body), trim(rest)));
            },
            None => {},
        }
        i += 1;
    }
    None
}

/// Splits `input` into its front matter and its content, both trimmed and
/// borrowed from `input`.
///
/// The conventions are `---` and `+++`, and a line break has to stand
/// behind the closing marker. An input that is no document with front
/// matter, the empty one among them, gives `None`.
pub fn matter<'a>(input: &'a str) -> (r: Option<(&'a str, &'a str)>)
    ensures
        match r {
            Some((front, content)) => extraction(input@, Config::standard()) == Some(
                (front@, content@),
            ),
            None => extraction(input@, Config::standard()) is None,
        },
{
    let patterns = [Convention::Yaml, Convention::Toml];
    assert(patterns@ =~= Config::standard().pattern_set());
    first_of(patterns.as_slice(), false, input)
}

/// Splits `input` into its front matter and its content, both trimmed, as
/// texts of their own.
///
/// The conventions are `---` and `+++`, and the closing marker may end the
/// text. An input that is no document with front matter, the empty one
/// among them, gives `None`.
pub fn extract(input: &str) -> (r: Option<(String, String)>)
    ensures
        match r {
            Some((front, content)) => extraction(input@, Config::lenient()) == Some(
                (front@, content@),
            ),
            None => extraction(input@, Config::lenient()) is None,
        },
{
    let patterns = [Convention::Yaml, Convention::Toml];
    assert(patterns@ =~= Config::lenient().pattern_set());
    match first_of(patterns.as_slice(), true, input) {
        Some((front, content)) => Some((front.to_owned(), content.to_owned())),
        None => None,
    }
}

} // verus!
