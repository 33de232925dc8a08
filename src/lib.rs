use vstd::prelude::*;

pub mod args;
pub mod parse_sentences;
pub mod prefix_table;
pub mod sentence_generator;

use crate::parse_sentences::sentences_of;
pub use crate::sentence_generator::SentenceGenerator;
use crate::sentence_generator::learn_all;

verus! {

/// The characters of each token of a sequence of owned tokens.
pub open spec fn tokens_view(v: Seq<String>) -> Seq<Seq<char>> {
    v.map_values(|s: String| s@)
}

/// The tokens of each sentence of a sequence of sentences.
pub open spec fn sentences_view(v: Seq<Vec<String>>) -> Seq<Seq<Seq<char>>> {
    v.map_values(|s: Vec<String>| tokens_view(s@))
}

/// Whether the program prints sentences or serves them over HTTP.
pub enum CliMode {
    /// Print the requested number of sentences, one per line.
    Cli,
    /// Serve one sentence per HTTP request on the given port.
    Server(u32),
}

/// Declares `std::io::Error`, which `CliError` carries without looking inside.
#[verifier::external_type_specification]
#[verifier::external_body]
pub struct ExIoError(std::io::Error);

/// What makes the program fail.
pub enum CliError {
    /// Finding or reading the text files failed.
    Io(std::io::Error),
    /// The server could not listen on the given port.
    ServerPortBindingFailed(u32),
}

impl From<std::io::Error> for CliError {
    fn from(inner: std::io::Error) -> (r: CliError)
        ensures
            r == CliError::Io(inner),
    {
        CliError::Io(inner)
    }
}

impl vstd::std_specs::convert::FromSpecImpl<std::io::Error> for CliError {
    open spec fn obeys_from_spec() -> bool {
        true
    }

    open spec fn from_spec(inner: std::io::Error) -> CliError {
        CliError::Io(inner)
    }
}

/// The model and the count of recorded occurrences after training on the
/// sentences of each of `texts` in turn.
pub open spec fn learn_texts(
    m: Map<Seq<Seq<char>>, Seq<(Seq<char>, nat)>>,
    recorded: nat,
    n: nat,
    texts: Seq<Seq<char>>,
) -> (Map<Seq<Seq<char>>, Seq<(Seq<char>, nat)>>, nat)
    decreases texts.len(),
{
    if texts.len() == 0 {
        (m, recorded)
    } else {
        let (m2, r2) = learn_texts(m, recorded, n, texts.drop_last());
        learn_all(m2, r2, n, sentences_of(texts.last()))
    }
}

/// A generator with windows of at most `prefix` tokens, trained on each of
/// `contents` in turn.
pub fn make_sentence_generator(prefix: u32, contents: &Vec<String>) -> (sg: SentenceGenerator)
    ensures
        sg.wf(),
        sg.order() == prefix,
        (sg@, sg.recorded()) == learn_texts(
            Map::empty(),
            0,
            prefix as nat,
            contents@.map_values(|t: String| t@),
        ),
{
    let ghost texts = contents@.map_values(|t: String| t@);
    let mut sg = SentenceGenerator::new(prefix);
    let mut i: usize = 0;
    while i < contents.len()
        invariant
            0 <= i <= contents@.len(),
            sg.wf(),
            sg.order() == prefix,
            texts == contents@.map_values(|t: String| t@),
            (sg@, sg.recorded()) == learn_texts(Map::empty(), 0, prefix as nat, texts.take(i as int)),
        decreases contents@.len() - i,
    {
        assert(texts.take(i + 1).drop_last() =~= texts.take(i as int));
        sg.add_text(contents[i].as_str());
        i = i + 1;
    }
    assert(texts.take(contents@.len() as int) =~= texts);
    sg
}

} // verus!
