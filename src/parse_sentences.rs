use vstd::prelude::*;
use crate::{sentences_view, tokens_view};

verus! {

/// Whether `c` has Unicode's White_Space property, as `char::is_whitespace` decides it.
pub uninterp spec fn is_space(c: char) -> bool;

/// Whether `c` is Alphabetic or Numeric in Unicode, as `char::is_alphanumeric` decides it.
pub uninterp spec fn is_alnum(c: char) -> bool;

/// Relies on `char::is_whitespace`, which depends on the character alone.
pub assume_specification[ char::is_whitespace ](c: char) -> (r: bool)
    ensures
        r == is_space(c),
;

/// Relies on `char::is_alphanumeric`, which depends on the character alone.
pub assume_specification[ char::is_alphanumeric ](c: char) -> (r: bool)
    ensures
        r == is_alnum(c),
;

/// Relies on `String::push`: the character is appended at the end.
pub assume_specification[ String::push ](s: &mut String, ch: char)
    ensures
        final(s)@ == old(s)@.push(ch),
;

/// The marks that end a sentence.
pub open spec fn is_terminator(c: char) -> bool {
    c == '?' || c == '!' || c == '.'
}

/// The marks that stand as tokens of their own.
pub open spec fn is_mark(c: char) -> bool {
    c == ';' || c == ',' || c == ':' || c == '-' || c == '"' || is_terminator(c)
}

/// The characters that a word is made of.
pub open spec fn is_word_char(c: char) -> bool {
    is_alnum(c) || c == '\''
}

/// The open sentence with the pending word, if any, appended.
pub open spec fn with_word(sentence: Seq<Seq<char>>, word: Seq<char>) -> Seq<Seq<char>> {
    if word.len() == 0 {
        sentence
    } else {
        sentence.push(word)
    }
}

/// The finished sentences with the open one appended, unless it is empty.
pub open spec fn with_sentence(
    done: Seq<Seq<Seq<char>>>,
    sentence: Seq<Seq<char>>,
) -> Seq<Seq<Seq<char>>> {
    if sentence.len() == 0 {
        done
    } else {
        done.push(sentence)
    }
}

/// The state of the scan after reading `text`: the finished sentences, the open
/// sentence, and the word being read.
pub open spec fn scan(text: Seq<char>) -> (Seq<Seq<Seq<char>>>, Seq<Seq<char>>, Seq<char>)
    decreases text.len(),
{
    if text.len() == 0 {
        (seq![], seq![], seq![])
    } else {
        let (done, sentence, word) = scan(text.drop_last());
        let c = text.last();
        if is_space(c) {
            (done, with_word(sentence, word), seq![])
        } else if is_mark(c) {
            let closed = with_word(sentence, word).push(seq![c]);
            if is_terminator(c) {
                (with_sentence(done, closed), seq![], seq![])
            } else {
                (done, closed, seq![])
            }
        } else if is_word_char(c) {
            (done, sentence, word.push(c))
        } else {
            (done, sentence, word)
        }
    }
}

/// The sentences of `text`, each a sequence of tokens.
pub open spec fn sentences_of(text: Seq<char>) -> Seq<Seq<Seq<char>>> {
    let (done, sentence, word) = scan(text);
    with_sentence(done, with_word(sentence, word))
}

/// No sentence is empty and no token is empty.
pub open spec fn all_nonempty(sentences: Seq<Seq<Seq<char>>>) -> bool {
    forall|s: int| 0 <= s < sentences.len() ==> #[trigger] sentences[s].len() > 0 && forall|i: int|
        0 <= i < sentences[s].len() ==> #[trigger] sentences[s][i].len() > 0
}

proof fn lemma_scan_nonempty(text: Seq<char>)
    ensures
        all_nonempty(scan(text).0),
        forall|i: int| 0 <= i < scan(text).1.len() ==> #[trigger] scan(text).1[i].len() > 0,
    decreases text.len(),
{
    if text.len() > 0 {
        lemma_scan_nonempty(text.drop_last());
        let (done, sentence, word) = scan(text.drop_last());
        let c = text.last();
        let w = with_word(sentence, word);
        assert forall|i: int| 0 <= i < w.len() implies #[trigger] w[i].len() > 0 by {
            if i < sentence.len() {
                assert(w[i] == sentence[i]);
            }
        }
        let closed = w.push(seq![c]);
        assert forall|i: int| 0 <= i < closed.len() implies #[trigger] closed[i].len() > 0 by {
            if i < w.len() {
                assert(closed[i] == w[i]);
            }
        }
        if is_mark(c) && is_terminator(c) {
            let d = with_sentence(done, closed);
            assert forall|s: int| 0 <= s < d.len() implies #[trigger] d[s].len() > 0 && forall|i: int|
                0 <= i < d[s].len() ==> #[trigger] d[s][i].len() > 0 by {
                if s < done.len() {
                    assert(d[s] == done[s]);
                }
            }
        }
    }
}

/// Every sentence that tokenizing gives holds at least one token, and every token
/// holds at least one character.
pub proof fn lemma_sentences_nonempty(text: Seq<char>)
    ensures
        all_nonempty(sentences_of(text)),
{
    lemma_scan_nonempty(text);
    let (done, sentence, word) = scan(text);
    let w = with_word(sentence, word);
    assert forall|i: int| 0 <= i < w.len() implies #[trigger] w[i].len() > 0 by {
        if i < sentence.len() {
            assert(w[i] == sentence[i]);
        }
    }
    let d = with_sentence(done, w);
    assert forall|s: int| 0 <= s < d.len() implies #[trigger] d[s].len() > 0 && forall|i: int|
        0 <= i < d[s].len() ==> #[trigger] d[s][i].len() > 0 by {
        if s < done.len() {
            assert(d[s] == done[s]);
        }
    }
}

/// Tokenizing depends on the text alone: equal texts give equal sentences, so
/// repeated calls of `from_text` on one text agree.
pub proof fn lemma_tokenize_deterministic(a: Seq<char>, b: Seq<char>)
    requires
        a == b,
    ensures
        sentences_of(a) == sentences_of(b),
{
}

/// Splits `text` into sentences of word and punctuation tokens.
///
/// Whitespace ends a word. Each of `; , : - " ? ! .` ends a word and is a token of
/// its own; `?`, `!` and `.` also end the sentence. Letters, digits and apostrophes
/// make up words; any other character is dropped. Empty sentences are never
/// produced, and a sentence left open at the end of the text is kept.
pub fn from_text(text: &str) -> (sentences: Vec<Vec<String>>)
    ensures
        sentences_view(sentences@) == sentences_of(text@),
{
    let mut sentences: Vec<Vec<String>> = Vec::new();
    let mut current: Vec<String> = Vec::new();
    let mut word = String::new();
    for c in it: text.chars()
        invariant
            it.seq() == text@,
            (sentences_view(sentences@), tokens_view(current@), word@) == scan(
                text@.take(it.index() as int),
            ),
    {
        let ghost before = text@.take(it.index() as int);
        let ghost after = text@.take(it.index() + 1);
        assert(after.drop_last() =~= before);
        assert(after.last() == c);
        let ghost state = scan(before);
        if c.is_whitespace() {
            push_word(&mut current, word);
            word = String::new();
            assert(word@ == Seq::<char>::empty());
        } else if is_punctuation(c) {
            push_word(&mut current, word);
            word = String::new();
            assert(word@ == Seq::<char>::empty());
            let mut mark = String::new();
            mark.push(c);
            current.push(mark);
            assert(tokens_view(current@) =~= tokens_view(current@.drop_last()).push(seq![c]));
            let ghost closed = tokens_view(current@);
            assert(closed == with_word(state.1, state.2).push(seq![c]));
            if is_sentence_terminator(c) {
                push_sentence(&mut sentences, current);
                current = Vec::new();
                assert(tokens_view(current@) =~= seq![]);
                assert(scan(after) == (with_sentence(state.0, closed), Seq::<Seq<char>>::empty(), Seq::<char>::empty()));
            }
        } else if c.is_alphanumeric() || c == '\'' {
            word.push(c);
        }
    }
    assert(text@.take(text@.len() as int) =~= text@);
    push_word(&mut current, word);
    push_sentence(&mut sentences, current);
    sentences
}

/// Appends the pending word to the open sentence, unless it is empty.
fn push_word(sentence: &mut Vec<String>, word: String)
    ensures
        tokens_view(final(sentence)@) == with_word(tokens_view(old(sentence)@), word@),
{
    if !word.as_str().is_empty() {
        sentence.push(word);
        assert(tokens_view(sentence@) =~= tokens_view(old(sentence)@).push(word@));
    } else {
        assert(tokens_view(sentence@) =~= tokens_view(old(sentence)@));
    }
}

/// Appends the open sentence to the finished ones, unless it is empty.
fn push_sentence(sentences: &mut Vec<Vec<String>>, sentence: Vec<String>)
    ensures
        sentences_view(final(sentences)@) == with_sentence(
            sentences_view(old(sentences)@),
            tokens_view(sentence@),
        ),
{
    if !sentence.is_empty() {
        sentences.push(sentence);
        assert(sentences_view(sentences@) =~= sentences_view(old(sentences)@).push(
            tokens_view(sentence@),
        ));
    } else {
        assert(sentences_view(sentences@) =~= sentences_view(old(sentences)@));
    }
}

/// Whether `c` ends a sentence.
pub fn is_sentence_terminator(c: char) -> (r: bool)
    ensures
        r == is_terminator(c),
{
    c == '?' || c == '!' || c == '.'
}

/// Whether `c` is a punctuation mark that stands as a token of its own.
pub fn is_punctuation(c: char) -> (r: bool)
    ensures
        r == is_mark(c),
{
    c == ';' || c == ',' || c == ':' || c == '-' || c == '"' || c == '?' || c == '!' || c == '.'
}

} // verus!
