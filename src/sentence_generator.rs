use vstd::prelude::*;
use crate::parse_sentences::{from_text, sentences_of};
use crate::prefix_table::{
    count_of, follows, learn, lemma_count_added, may_end, record, seed, slide, stop_token,
    train_from, window_after, PrefixTable, MAX_WALK_TOKENS,
};
use crate::{sentences_view, tokens_view};

verus! {

/// The model and the count of recorded occurrences after training on each of
/// `sentences` in turn.
pub open spec fn learn_all(
    m: Map<Seq<Seq<char>>, Seq<(Seq<char>, nat)>>,
    recorded: nat,
    n: nat,
    sentences: Seq<Seq<Seq<char>>>,
) -> (Map<Seq<Seq<char>>, Seq<(Seq<char>, nat)>>, nat)
    decreases sentences.len(),
{
    if sentences.len() == 0 {
        (m, recorded)
    } else {
        let (m2, r2) = learn_all(m, recorded, n, sentences.drop_last());
        learn(m2, r2, n, sentences.last())
    }
}

/// The tokens with one space between each two of them.
pub open spec fn joined(tokens: Seq<Seq<char>>) -> Seq<char>
    decreases tokens.len(),
{
    if tokens.len() == 0 {
        Seq::empty()
    } else if tokens.len() == 1 {
        tokens[0]
    } else {
        joined(tokens.drop_last()) + seq![' '] + tokens.last()
    }
}

/// Some sentence of `sentences` holds the token `w`.
pub open spec fn in_corpus(sentences: Seq<Seq<Seq<char>>>, w: Seq<char>) -> bool {
    exists|s: int, i: int|
        0 <= s < sentences.len() && 0 <= i < sentences[s].len() && #[trigger] sentences[s][i] == w
}

/// Every token that `m` has seen after some window, but the end of a sentence,
/// stands in one of `sentences`.
pub open spec fn vocabulary_within(
    m: Map<Seq<Seq<char>>, Seq<(Seq<char>, nat)>>,
    sentences: Seq<Seq<Seq<char>>>,
) -> bool {
    forall|k: Seq<Seq<char>>, w: Seq<char>|
        m.contains_key(k) && #[trigger] count_of(m[k], w) > 0 && w != stop_token() ==> in_corpus(
            sentences,
            w,
        )
}

proof fn lemma_record_vocabulary(
    m: Map<Seq<Seq<char>>, Seq<(Seq<char>, nat)>>,
    key: Seq<Seq<char>>,
    x: Seq<char>,
    sentences: Seq<Seq<Seq<char>>>,
)
    requires
        vocabulary_within(m, sentences),
        x == stop_token() || in_corpus(sentences, x),
    ensures
        vocabulary_within(record(m, key, x), sentences),
{
    let r = record(m, key, x);
    assert forall|k: Seq<Seq<char>>, w: Seq<char>|
        r.contains_key(k) && #[trigger] count_of(r[k], w) > 0 && w != stop_token() implies in_corpus(
            sentences,
            w,
        ) by {
        if k == key {
            let e = if m.contains_key(key) {
                m[key]
            } else {
                Seq::empty()
            };
            lemma_count_added(e, x, w);
            if w != x {
                assert(count_of(e, w) > 0);
                assert(m.contains_key(key));
                assert(count_of(m[k], w) > 0);
            }
        } else {
            assert(m.contains_key(k) && r[k] == m[k]);
        }
    }
}

proof fn lemma_train_vocabulary(
    m: Map<Seq<Seq<char>>, Seq<(Seq<char>, nat)>>,
    n: nat,
    window: Seq<Seq<char>>,
    sentence: Seq<Seq<char>>,
    sentences: Seq<Seq<Seq<char>>>,
)
    requires
        vocabulary_within(m, sentences),
        forall|i: int| 0 <= i < sentence.len() ==> in_corpus(sentences, #[trigger] sentence[i]),
    ensures
        vocabulary_within(train_from(m, n, window, sentence), sentences),
    decreases sentence.len(),
{
    if sentence.len() == 0 {
        lemma_record_vocabulary(m, window, stop_token(), sentences);
    } else {
        assert(in_corpus(sentences, sentence[0]));
        lemma_record_vocabulary(m, window, sentence[0], sentences);
        let rest = sentence.drop_first();
        assert forall|i: int| 0 <= i < rest.len() implies in_corpus(sentences, #[trigger] rest[i]) by {
            assert(rest[i] == sentence[i + 1]);
        }
        lemma_train_vocabulary(
            record(m, window, sentence[0]),
            n,
            slide(window, sentence[0], n),
            rest,
            sentences,
        );
    }
}

proof fn lemma_learn_vocabulary(n: nat, sentences: Seq<Seq<Seq<char>>>)
    ensures
        vocabulary_within(learn_all(Map::empty(), 0, n, sentences).0, sentences),
    decreases sentences.len(),
{
    if sentences.len() > 0 {
        let before = sentences.drop_last();
        lemma_learn_vocabulary(n, before);
        let (m2, r2) = learn_all(Map::empty(), 0, n, before);
        assert(vocabulary_within(m2, sentences)) by {
            assert forall|k: Seq<Seq<char>>, w: Seq<char>|
                m2.contains_key(k) && #[trigger] count_of(m2[k], w) > 0 && w != stop_token() implies in_corpus(
                    sentences,
                    w,
                ) by {
                assert(in_corpus(before, w));
                let (s, i) = choose|s: int, i: int|
                    0 <= s < before.len() && 0 <= i < before[s].len() && #[trigger] before[s][i] == w;
                assert(sentences[s][i] == w);
            }
        }
        let last = sentences.last();
        assert forall|i: int| 0 <= i < last.len() implies in_corpus(sentences, #[trigger] last[i]) by {
            assert(sentences[sentences.len() - 1][i] == last[i]);
        }
        if r2 + last.len() + 1 <= u64::MAX {
            lemma_train_vocabulary(m2, n, seed(n), last, sentences);
        }
    }
}

/// A walk through a model trained, from nothing, on `sentences` produces only
/// tokens that stand in those sentences.
pub proof fn lemma_walk_uses_corpus(
    n: nat,
    sentences: Seq<Seq<Seq<char>>>,
    out: Seq<Seq<char>>,
)
    requires
        follows(learn_all(Map::empty(), 0, n, sentences).0, n, out),
    ensures
        forall|i: int| 0 <= i < out.len() ==> in_corpus(sentences, #[trigger] out[i]),
{
    lemma_learn_vocabulary(n, sentences);
    let m = learn_all(Map::empty(), 0, n, sentences).0;
    assert forall|i: int| 0 <= i < out.len() implies in_corpus(sentences, #[trigger] out[i]) by {
        let k = window_after(n, out.take(i));
        let w = out[i];
        assert(w != stop_token());
        assert(m.contains_key(k));
        assert(count_of(m[k], w) > 0);
    }
}

/// A model that was never trained makes up only the empty sentence.
pub proof fn lemma_untrained_is_silent(n: nat, out: Seq<Seq<char>>)
    requires
        follows(Map::empty(), n, out),
    ensures
        out.len() == 0,
        joined(out) == Seq::<char>::empty(),
{
    if out.len() > 0 {
        assert(out[0] == out[0]);
    }
}

/// Joins the tokens with one space between each two of them.
pub fn join_tokens(tokens: &Vec<String>) -> (r: String)
    ensures
        r@ == joined(tokens_view(tokens@)),
{
    let ghost ts = tokens_view(tokens@);
    let mut r = String::new();
    let mut i: usize = 0;
    while i < tokens.len()
        invariant
            0 <= i <= tokens@.len(),
            ts == tokens_view(tokens@),
            r@ == joined(ts.take(i as int)),
        decreases tokens@.len() - i,
    {
        assert(ts.take(i + 1).drop_last() =~= ts.take(i as int));
        if i > 0 {
            r.push(' ');
        } else {
            assert(ts.take(1) =~= seq![ts[0]]);
        }
        r.append(tokens[i].as_str());
        i = i + 1;
    }
    assert(ts.take(tokens@.len() as int) =~= ts);
    r
}

/// Learns sentences from text and makes up new ones that resemble them.
pub struct SentenceGenerator {
    table: PrefixTable,
}

impl View for SentenceGenerator {
    type V = Map<Seq<Seq<char>>, Seq<(Seq<char>, nat)>>;

    closed spec fn view(&self) -> Map<Seq<Seq<char>>, Seq<(Seq<char>, nat)>> {
        self.table@
    }
}

impl SentenceGenerator {
    /// The model is well formed.
    pub closed spec fn wf(&self) -> bool {
        self.table.wf()
    }

    /// The most tokens a window of the model holds.
    pub closed spec fn order(&self) -> nat {
        self.table.order()
    }

    /// The number of occurrences recorded so far.
    pub closed spec fn recorded(&self) -> nat {
        self.table.recorded()
    }

    /// A generator with an empty model whose windows hold at most `prefix_length`
    /// tokens.
    pub fn new(prefix_length: u32) -> (g: SentenceGenerator)
        ensures
            g.wf(),
            g.order() == prefix_length,
            g.recorded() == 0,
            g@ == Map::<Seq<Seq<char>>, Seq<(Seq<char>, nat)>>::empty(),
    {
        SentenceGenerator { table: PrefixTable::new(prefix_length) }
    }

    /// Splits `text` into sentences and trains the model on each in turn.
    pub fn add_text(&mut self, text: &str)
        requires
            old(self).wf(),
        ensures
            final(self).wf(),
            final(self).order() == old(self).order(),
            (final(self)@, final(self).recorded()) == learn_all(
                old(self)@,
                old(self).recorded(),
                old(self).order(),
                sentences_of(text@),
            ),
    {
        let ghost n = self.order();
        let sentences = from_text(text);
        let ghost ss = sentences_view(sentences@);
        for sentence in it: sentences
            invariant
                self.wf(),
                self.order() == n,
                n == old(self).order(),
                ss == sentences_of(text@),
                ss == sentences_view(it.seq()),
                (self@, self.recorded()) == learn_all(
                    old(self)@,
                    old(self).recorded(),
                    n,
                    ss.take(it.index() as int),
                ),
        {
            assert(ss.take(it.index() + 1).drop_last() =~= ss.take(it.index() as int));
            self.table.add_sentence(sentence);
        }
        assert(ss.take(ss.len() as int) =~= ss);
    }

    /// One sentence made up by a walk through the model: its tokens joined with
    /// single spaces, or the empty string when the walk produced none.
    pub fn get_random_sentence(&self) -> (r: String)
        requires
            self.wf(),
        ensures
            exists|out: Seq<Seq<char>>|
                follows(self@, self.order(), out) && out.len() <= MAX_WALK_TOKENS && (out.len()
                    < MAX_WALK_TOKENS ==> may_end(self@, self.order(), out)) && r@ == joined(out),
    {
        let tokens = self.table.walk();
        join_tokens(&tokens)
    }
}

} // verus!
