use vstd::prelude::*;
use rand::Rng;
use crate::tokens_view;

verus! {

/// The sum of the counts of `e`.
pub open spec fn total_of(e: Seq<(Seq<char>, nat)>) -> nat
    decreases e.len(),
{
    if e.len() == 0 {
        0
    } else {
        total_of(e.drop_last()) + e.last().1
    }
}

/// How often `w` was recorded in `e`.
pub open spec fn count_of(e: Seq<(Seq<char>, nat)>, w: Seq<char>) -> nat
    decreases e.len(),
{
    if e.len() == 0 {
        0
    } else {
        count_of(e.drop_last(), w) + if e.last().0 == w {
            e.last().1
        } else {
            0nat
        }
    }
}

/// The index of the last entry of `e` for `w`, or -1 if there is none.
pub open spec fn position_of(e: Seq<(Seq<char>, nat)>, w: Seq<char>) -> int
    decreases e.len(),
{
    if e.len() == 0 {
        -1
    } else if e.last().0 == w {
        e.len() - 1
    } else {
        position_of(e.drop_last(), w)
    }
}

/// `e` with one more occurrence of `w`: its entry's count goes up by one, or a new
/// entry with count one is appended.
pub open spec fn with_added(e: Seq<(Seq<char>, nat)>, w: Seq<char>) -> Seq<(Seq<char>, nat)> {
    let p = position_of(e, w);
    if p >= 0 {
        e.update(p, (w, e[p].1 + 1))
    } else {
        e.push((w, 1nat))
    }
}

/// The entries that recording each of `ws` in turn gives, from none.
pub open spec fn tally(ws: Seq<Seq<char>>) -> Seq<(Seq<char>, nat)>
    decreases ws.len(),
{
    if ws.len() == 0 {
        seq![]
    } else {
        with_added(tally(ws.drop_last()), ws.last())
    }
}

/// Each token has at most one entry, and every count is positive.
pub open spec fn entries_valid(e: Seq<(Seq<char>, nat)>) -> bool {
    &&& forall|i: int, j: int| 0 <= i < j < e.len() ==> e[i].0 != e[j].0
    &&& forall|i: int| 0 <= i < e.len() ==> e[i].1 > 0
}

/// Where the range of entry `i` starts: entry `i` owns the draws
/// `offset(e, i) <= d < offset(e, i) + e[i].1`.
pub open spec fn offset(e: Seq<(Seq<char>, nat)>, i: int) -> nat {
    total_of(e.take(i))
}

/// Whether the draw `d` falls in the range of entry `i`.
pub open spec fn owns_draw(e: Seq<(Seq<char>, nat)>, i: int, d: int) -> bool {
    0 <= i < e.len() && offset(e, i) <= d < offset(e, i) + e[i].1
}

proof fn lemma_total_take(e: Seq<(Seq<char>, nat)>, j: int)
    requires
        0 <= j <= e.len(),
    ensures
        total_of(e.take(j)) <= total_of(e),
        j < e.len() ==> total_of(e.take(j + 1)) == total_of(e.take(j)) + e[j].1,
    decreases e.len(),
{
    if j < e.len() {
        assert(e.take(j + 1).drop_last() =~= e.take(j));
        lemma_total_take(e.drop_last(), j);
        if j + 1 < e.len() {
            lemma_total_take(e.drop_last(), j + 1);
            assert(e.drop_last().take(j + 1) =~= e.take(j + 1));
        } else {
            assert(e.take(j + 1) =~= e);
        }
        assert(e.drop_last().take(j) =~= e.take(j));
    } else {
        assert(e.take(j) =~= e);
    }
}

proof fn lemma_total_bump(e: Seq<(Seq<char>, nat)>, p: int, w: Seq<char>)
    requires
        0 <= p < e.len(),
    ensures
        total_of(e.update(p, (w, e[p].1 + 1))) == total_of(e) + 1,
    decreases e.len(),
{
    let u = e.update(p, (w, e[p].1 + 1));
    if p < e.len() - 1 {
        assert(u.drop_last() =~= e.drop_last().update(p, (w, e[p].1 + 1)));
        lemma_total_bump(e.drop_last(), p, w);
    } else {
        assert(u.drop_last() =~= e.drop_last());
    }
}

proof fn lemma_count_at_least(e: Seq<(Seq<char>, nat)>, i: int)
    requires
        0 <= i < e.len(),
    ensures
        count_of(e, e[i].0) >= e[i].1,
    decreases e.len(),
{
    if i < e.len() - 1 {
        lemma_count_at_least(e.drop_last(), i);
    }
}

proof fn lemma_position(e: Seq<(Seq<char>, nat)>, w: Seq<char>)
    requires
        entries_valid(e),
    ensures
        forall|i: int| 0 <= i < e.len() && #[trigger] e[i].0 == w ==> position_of(e, w) == i,
        (forall|i: int| 0 <= i < e.len() ==> e[i].0 != w) ==> position_of(e, w) == -1,
        -1 <= position_of(e, w) < e.len(),
        position_of(e, w) >= 0 ==> e[position_of(e, w)].0 == w,
    decreases e.len(),
{
    if e.len() > 0 {
        let d = e.drop_last();
        assert(entries_valid(d)) by {
            assert forall|i: int, j: int| 0 <= i < j < d.len() implies d[i].0 != d[j].0 by {
                assert(d[i] == e[i] && d[j] == e[j]);
            }
            assert forall|i: int| 0 <= i < d.len() implies d[i].1 > 0 by {
                assert(d[i] == e[i]);
            }
        }
        lemma_position(d, w);
        assert forall|i: int| 0 <= i < e.len() && #[trigger] e[i].0 == w implies position_of(e, w) == i by {
            if i < e.len() - 1 {
                assert(d[i] == e[i]);
            }
        }
    }
}

proof fn lemma_count_exact(e: Seq<(Seq<char>, nat)>, w: Seq<char>)
    requires
        entries_valid(e),
    ensures
        position_of(e, w) >= 0 ==> count_of(e, w) == e[position_of(e, w)].1,
        position_of(e, w) < 0 ==> count_of(e, w) == 0,
    decreases e.len(),
{
    if e.len() > 0 {
        let d = e.drop_last();
        assert(entries_valid(d)) by {
            assert forall|i: int, j: int| 0 <= i < j < d.len() implies d[i].0 != d[j].0 by {
                assert(d[i] == e[i] && d[j] == e[j]);
            }
            assert forall|i: int| 0 <= i < d.len() implies d[i].1 > 0 by {
                assert(d[i] == e[i]);
            }
        }
        lemma_count_exact(d, w);
        lemma_position(d, w);
        if e.last().0 == w {
            if position_of(d, w) >= 0 {
                assert(d[position_of(d, w)] == e[position_of(d, w)]);
            }
        }
    }
}

proof fn lemma_position_found(e: Seq<(Seq<char>, nat)>, w: Seq<char>)
    ensures
        -1 <= position_of(e, w) < e.len(),
        position_of(e, w) >= 0 ==> e[position_of(e, w)].0 == w,
    decreases e.len(),
{
    if e.len() > 0 {
        lemma_position_found(e.drop_last(), w);
    }
}

proof fn lemma_count_bump(e: Seq<(Seq<char>, nat)>, p: int, x: Seq<char>)
    requires
        0 <= p < e.len(),
    ensures
        count_of(e.update(p, (e[p].0, e[p].1 + 1)), x) == count_of(e, x) + if e[p].0 == x {
            1nat
        } else {
            0nat
        },
    decreases e.len(),
{
    let u = e.update(p, (e[p].0, e[p].1 + 1));
    if p < e.len() - 1 {
        assert(u.drop_last() =~= e.drop_last().update(p, (e[p].0, e[p].1 + 1)));
        lemma_count_bump(e.drop_last(), p, x);
    } else {
        assert(u.drop_last() =~= e.drop_last());
    }
}

/// Recording `x` adds one to the count of `x` and leaves every other count as it
/// was.
pub proof fn lemma_count_added(e: Seq<(Seq<char>, nat)>, x: Seq<char>, w: Seq<char>)
    ensures
        count_of(with_added(e, x), w) == count_of(e, w) + if w == x {
            1nat
        } else {
            0nat
        },
{
    lemma_position_found(e, x);
    let p = position_of(e, x);
    if p >= 0 {
        lemma_count_bump(e, p, w);
    } else {
        assert(with_added(e, x).drop_last() =~= e);
    }
}

proof fn lemma_with_added(e: Seq<(Seq<char>, nat)>, w: Seq<char>)
    requires
        entries_valid(e),
    ensures
        entries_valid(with_added(e, w)),
        total_of(with_added(e, w)) == total_of(e) + 1,
        forall|x: Seq<char>|
            #[trigger] count_of(with_added(e, w), x) == count_of(e, x) + if x == w {
                1nat
            } else {
                0nat
            },
{
    assert forall|x: Seq<char>|
        #[trigger] count_of(with_added(e, w), x) == count_of(e, x) + if x == w {
            1nat
        } else {
            0nat
        } by {
        lemma_count_added(e, w, x);
    }
    lemma_position(e, w);
    let p = position_of(e, w);
    if p >= 0 {
        lemma_total_bump(e, p, w);
    } else {
        assert(with_added(e, w).drop_last() =~= e);
    }
}

/// Recording a sequence of tokens one at a time, from an empty distribution,
/// gives valid entries whose counts sum to the number of tokens recorded, and the
/// count of each token is the number of times it was recorded.
pub proof fn lemma_conservation(ws: Seq<Seq<char>>)
    ensures
        entries_valid(tally(ws)),
        total_of(tally(ws)) == ws.len(),
        forall|w: Seq<char>| #[trigger] count_of(tally(ws), w) == ws.to_multiset().count(w),
    decreases ws.len(),
{
    broadcast use {vstd::seq_lib::to_multiset_build, vstd::seq_lib::to_multiset_contains};

    if ws.len() == 0 {
        assert forall|w: Seq<char>| #[trigger] count_of(tally(ws), w) == ws.to_multiset().count(w) by {
            assert(!ws.contains(w));
        }
    } else {
        let before = ws.drop_last();
        lemma_conservation(before);
        lemma_with_added(tally(before), ws.last());
        assert(ws =~= before.push(ws.last()));
        assert forall|w: Seq<char>| #[trigger] count_of(tally(ws), w) == ws.to_multiset().count(w) by {
            assert(ws.to_multiset() == before.to_multiset().insert(ws.last()));
        }
    }
}

/// Relies on `rand::Rng::gen_range` with `rand::thread_rng()`: a value drawn from
/// `0..bound`. It panics on an empty range, which `requires` leaves out.
#[verifier::external_body]
fn random_below(bound: u64) -> (r: u64)
    requires
        bound > 0,
    ensures
        r < bound,
{
    rand::thread_rng().gen_range(0, bound)
}

/// Relies on `str`'s `==`: two string slices are equal when they hold the same
/// characters.
pub assume_specification[ <str as PartialEq>::eq ](a: &str, b: &str) -> (r: bool)
    ensures
        r == (a@ == b@),
;

/// Counts of the tokens seen after one prefix, in the order in which each was
/// first seen.
pub struct WordDistribution {
    total: u64,
    words: Vec<String>,
    counts: Vec<u64>,
}

impl View for WordDistribution {
    type V = Seq<(Seq<char>, nat)>;

    closed spec fn view(&self) -> Seq<(Seq<char>, nat)> {
        Seq::new(self.words@.len(), |i: int| (self.words@[i]@, self.counts@[i] as nat))
    }
}

impl WordDistribution {
    /// The fields agree with each other and the entries are valid.
    pub closed spec fn wf(&self) -> bool {
        &&& self.words@.len() == self.counts@.len()
        &&& entries_valid(self@)
        &&& self.total as nat == total_of(self@)
    }

    /// An empty distribution.
    pub fn new() -> (d: WordDistribution)
        ensures
            d.wf(),
            d@ == Seq::<(Seq<char>, nat)>::empty(),
    {
        let d = WordDistribution { total: 0, words: Vec::new(), counts: Vec::new() };
        assert(d@ =~= Seq::<(Seq<char>, nat)>::empty());
        d
    }

    /// Records one more occurrence of `word`.
    pub fn add(&mut self, word: &str)
        requires
            old(self).wf(),
            total_of(old(self)@) < u64::MAX,
        ensures
            final(self).wf(),
            final(self)@ == with_added(old(self)@, word@),
            total_of(final(self)@) == total_of(old(self)@) + 1,
            forall|w: Seq<char>|
                #[trigger] count_of(final(self)@, w) == count_of(old(self)@, w) + if w == word@ {
                    1nat
                } else {
                    0nat
                },
    {
        proof {
            lemma_with_added(old(self)@, word@);
        }
        let ghost e = self@;
        let mut i: usize = 0;
        while i < self.words.len()
            invariant
                self.wf(),
                self@ == e,
                e == old(self)@,
                total_of(e) < u64::MAX,
                0 <= i <= self.words@.len(),
                forall|j: int| 0 <= j < i ==> e[j].0 != word@,
            decreases self.words@.len() - i,
        {
            if self.words[i].as_str().eq(word) {
                assert(e[i as int].1 == self.counts@[i as int] as nat);
                proof {
                    lemma_with_added(e, word@);
                    lemma_position(e, word@);
                    lemma_total_take(e, i as int);
                    lemma_total_take(e, i as int + 1);
                }
                self.counts[i] = self.counts[i] + 1;
                self.total = self.total + 1;
                proof {
                    lemma_total_bump(e, i as int, word@);
                }
                assert(e[i as int].0 == word@);
                assert(position_of(e, word@) == i);
                assert(self@ =~= e.update(i as int, (word@, e[i as int].1 + 1)));
                assert(self@ =~= with_added(e, word@));
                return;
            }
            i = i + 1;
        }
        proof {
            lemma_with_added(e, word@);
            lemma_position(e, word@);
        }
        self.words.push(word.to_owned());
        self.counts.push(1);
        self.total = self.total + 1;
        assert(self@ =~= with_added(e, word@));
        assert(self@.drop_last() =~= e);
    }

    /// How often `word` was recorded.
    pub fn count(&self, word: &str) -> (r: u64)
        requires
            self.wf(),
        ensures
            r == count_of(self@, word@),
    {
        proof {
            lemma_position(self@, word@);
            lemma_count_exact(self@, word@);
        }
        let mut i: usize = 0;
        while i < self.words.len()
            invariant
                self.wf(),
                0 <= i <= self.words@.len(),
                forall|j: int| 0 <= j < i ==> self@[j].0 != word@,
                position_of(self@, word@) >= 0 ==> count_of(self@, word@) == self@[position_of(self@, word@)].1,
                position_of(self@, word@) < 0 ==> count_of(self@, word@) == 0,
                forall|j: int| 0 <= j < self@.len() && #[trigger] self@[j].0 == word@ ==> position_of(self@, word@) == j,
            decreases self.words@.len() - i,
        {
            if self.words[i].as_str().eq(word) {
                assert(self@[i as int].0 == word@);
                return self.counts[i];
            }
            i = i + 1;
        }
        0
    }

    /// The token whose range holds `draw`. The entries, in order, take up
    /// consecutive ranges of the draws `0..total`, each as wide as its count; there
    /// is none for a draw at or past the total.
    pub fn select(&self, draw: u64) -> (r: Option<String>)
        requires
            self.wf(),
        ensures
            r is Some <==> draw < total_of(self@),
            r matches Some(w) ==> exists|i: int| owns_draw(self@, i, draw as int) && self@[i].0 == w@,
    {
        let ghost e = self@;
        let mut rest: u64 = draw;
        let mut i: usize = 0;
        while i < self.words.len()
            invariant
                self.wf(),
                self@ == e,
                0 <= i <= e.len(),
                rest + offset(e, i as int) == draw,
            decreases e.len() - i,
        {
            proof {
                lemma_total_take(e, i as int);
                lemma_total_take(e, i as int + 1);
            }
            assert(e[i as int].1 == self.counts@[i as int] as nat);
            if rest < self.counts[i] {
                assert(owns_draw(e, i as int, draw as int));
                return Some(self.words[i].clone());
            }
            rest = rest - self.counts[i];
            i = i + 1;
        }
        assert(e.take(e.len() as int) =~= e);
        None
    }

    /// A token drawn at random, each with a chance proportional to its count;
    /// `None` when nothing was recorded.
    pub fn get_random(&self) -> (r: Option<String>)
        requires
            self.wf(),
        ensures
            r is None <==> total_of(self@) == 0,
            r matches Some(w) ==> count_of(self@, w@) > 0,
    {
        if self.total == 0 {
            return None;
        }
        let draw = random_below(self.total);
        let r = self.select(draw);
        proof {
            if r is Some {
                let i = choose|i: int| owns_draw(self@, i, draw as int) && self@[i].0 == r->0@;
                lemma_count_at_least(self@, i);
            }
        }
        r
    }

    /// A well-formed distribution has at most one entry per token, only positive
    /// counts, and a total that fits in a `u64`.
    pub proof fn lemma_wf_entries(&self)
        requires
            self.wf(),
        ensures
            entries_valid(self@),
            total_of(self@) <= u64::MAX,
    {
    }

    /// The number of occurrences recorded: the sum of the counts.
    pub fn total(&self) -> (r: u64)
        requires
            self.wf(),
        ensures
            r == total_of(self@),
    {
        self.total
    }
}

/// The last `n` tokens of `s`, or all of them when there are fewer.
pub open spec fn last_n(s: Seq<Seq<char>>, n: nat) -> Seq<Seq<char>> {
    if s.len() <= n {
        s
    } else {
        s.skip(s.len() - n)
    }
}

/// The window of at most `n` tokens after `w` is pushed onto `window`.
pub open spec fn slide(window: Seq<Seq<char>>, w: Seq<char>, n: nat) -> Seq<Seq<char>> {
    last_n(window.push(w), n)
}

/// Pushing a token onto the window of the last `n` tokens pushed so far gives the
/// window of the last `n` tokens of the longer sequence, and a window grows by one
/// until it holds `n` tokens.
pub proof fn lemma_sliding_window(pushed: Seq<Seq<char>>, window: Seq<Seq<char>>, w: Seq<char>, n: nat)
    requires
        window == last_n(pushed, n),
    ensures
        slide(window, w, n) == last_n(pushed.push(w), n),
        slide(window, w, n).len() == if window.len() + 1 <= n {
            window.len() + 1
        } else {
            n
        },
        slide(window, w, n).len() == if pushed.len() + 1 <= n {
            pushed.len() + 1
        } else {
            n
        },
{
    assert(slide(window, w, n) =~= last_n(pushed.push(w), n));
}

/// A window over the last tokens pushed onto it, keeping at most `length` of them.
pub struct Prefix {
    length: usize,
    words: Vec<String>,
}

impl View for Prefix {
    type V = Seq<Seq<char>>;

    closed spec fn view(&self) -> Seq<Seq<char>> {
        tokens_view(self.words@)
    }
}

impl Prefix {
    /// The most tokens the window keeps.
    pub closed spec fn capacity(&self) -> nat {
        self.length as nat
    }

    /// The window holds no more tokens than it may.
    pub closed spec fn wf(&self) -> bool {
        self.words@.len() <= self.length
    }

    /// An empty window that keeps at most `length` tokens.
    pub fn new(length: usize) -> (p: Prefix)
        ensures
            p.wf(),
            p.capacity() == length,
            p@ == Seq::<Seq<char>>::empty(),
    {
        let p = Prefix { length, words: Vec::new() };
        assert(p@ =~= Seq::<Seq<char>>::empty());
        p
    }

    /// Appends `word`, first dropping the oldest token when the window is full.
    pub fn push(&mut self, word: &str)
        requires
            old(self).wf(),
        ensures
            final(self).wf(),
            final(self).capacity() == old(self).capacity(),
            final(self)@ == slide(old(self)@, word@, old(self).capacity()),
    {
        if self.length == 0 {
            assert(self@ =~= slide(old(self)@, word@, 0));
            return;
        }
        if self.words.len() == self.length {
            self.words.remove(0);
        }
        self.words.push(word.to_owned());
        assert(self@ =~= slide(old(self)@, word@, self.length as nat));
    }

    /// The tokens in the window, oldest first.
    pub fn words(&self) -> (r: &Vec<String>)
        ensures
            tokens_view(r@) == self@,
    {
        &self.words
    }
}

/// The token that a fresh window starts with: the empty token, which no word or
/// mark is.
pub open spec fn start_token() -> Seq<char> {
    Seq::empty()
}

/// The token recorded at the end of each sentence: the empty token, which no word
/// or mark is.
pub open spec fn stop_token() -> Seq<char> {
    Seq::empty()
}

/// The window that training and generation start from.
pub open spec fn seed(n: nat) -> Seq<Seq<char>> {
    last_n(seq![start_token()], n)
}

/// The model with one more occurrence of `w` after the window `key`.
pub open spec fn record(
    m: Map<Seq<Seq<char>>, Seq<(Seq<char>, nat)>>,
    key: Seq<Seq<char>>,
    w: Seq<char>,
) -> Map<Seq<Seq<char>>, Seq<(Seq<char>, nat)>> {
    let e = if m.contains_key(key) {
        m[key]
    } else {
        Seq::empty()
    };
    m.insert(key, with_added(e, w))
}

/// The model after recording, from the window `window` on, each token of
/// `sentence` after the window before it, and the end of the sentence after the
/// last window.
pub open spec fn train_from(
    m: Map<Seq<Seq<char>>, Seq<(Seq<char>, nat)>>,
    n: nat,
    window: Seq<Seq<char>>,
    sentence: Seq<Seq<char>>,
) -> Map<Seq<Seq<char>>, Seq<(Seq<char>, nat)>>
    decreases sentence.len(),
{
    if sentence.len() == 0 {
        record(m, window, stop_token())
    } else {
        train_from(
            record(m, window, sentence[0]),
            n,
            slide(window, sentence[0], n),
            sentence.drop_first(),
        )
    }
}

/// The model after training on one sentence with windows of at most `n` tokens.
pub open spec fn trained(
    m: Map<Seq<Seq<char>>, Seq<(Seq<char>, nat)>>,
    n: nat,
    sentence: Seq<Seq<char>>,
) -> Map<Seq<Seq<char>>, Seq<(Seq<char>, nat)>> {
    train_from(m, n, seed(n), sentence)
}

/// The model and the count of recorded occurrences after training on `sentence`,
/// whose tokens and end make `sentence.len() + 1` occurrences. A sentence that
/// would take that count past `u64::MAX` is left out.
pub open spec fn learn(
    m: Map<Seq<Seq<char>>, Seq<(Seq<char>, nat)>>,
    recorded: nat,
    n: nat,
    sentence: Seq<Seq<char>>,
) -> (Map<Seq<Seq<char>>, Seq<(Seq<char>, nat)>>, nat) {
    if recorded + sentence.len() + 1 <= u64::MAX {
        (trained(m, n, sentence), recorded + sentence.len() + 1)
    } else {
        (m, recorded)
    }
}

/// The window after the start token and then the tokens of `out` were pushed.
pub open spec fn window_after(n: nat, out: Seq<Seq<char>>) -> Seq<Seq<char>> {
    last_n(seq![start_token()] + out, n)
}

/// Each token of `out` is a real token that the model saw after the window of the
/// tokens before it: `out` is a path that a walk through `m` can take.
pub open spec fn follows(
    m: Map<Seq<Seq<char>>, Seq<(Seq<char>, nat)>>,
    n: nat,
    out: Seq<Seq<char>>,
) -> bool {
    forall|i: int|
        #![trigger out[i]]
        0 <= i < out.len() ==> out[i] != stop_token() && m.contains_key(window_after(n, out.take(i)))
            && count_of(m[window_after(n, out.take(i))], out[i]) > 0
}

/// A walk through `m` may stop after `out`: the model has no distribution for the
/// window it reached, or saw sentences end there.
pub open spec fn may_end(
    m: Map<Seq<Seq<char>>, Seq<(Seq<char>, nat)>>,
    n: nat,
    out: Seq<Seq<char>>,
) -> bool {
    !m.contains_key(window_after(n, out)) || count_of(m[window_after(n, out)], stop_token()) > 0
}

/// The most tokens that one walk produces. A walk that reaches it stops there.
pub const MAX_WALK_TOKENS: usize = 10000;

/// Whether the two token sequences hold the same tokens.
fn same_tokens(a: &Vec<String>, b: &Vec<String>) -> (r: bool)
    ensures
        r == (tokens_view(a@) == tokens_view(b@)),
{
    if a.len() != b.len() {
        assert(tokens_view(a@).len() != tokens_view(b@).len());
        return false;
    }
    let mut i: usize = 0;
    while i < a.len()
        invariant
            a@.len() == b@.len(),
            0 <= i <= a@.len(),
            forall|j: int| 0 <= j < i ==> a@[j]@ == b@[j]@,
        decreases a@.len() - i,
    {
        if a[i] != b[i] {
            assert(tokens_view(a@)[i as int] != tokens_view(b@)[i as int]);
            return false;
        }
        i = i + 1;
    }
    assert(tokens_view(a@) =~= tokens_view(b@));
    true
}

/// A copy of the tokens.
fn copy_tokens(v: &Vec<String>) -> (r: Vec<String>)
    ensures
        tokens_view(r@) == tokens_view(v@),
{
    let mut r: Vec<String> = Vec::new();
    let mut i: usize = 0;
    while i < v.len()
        invariant
            0 <= i <= v@.len(),
            tokens_view(r@) == tokens_view(v@.take(i as int)),
        decreases v@.len() - i,
    {
        r.push(v[i].clone());
        assert(tokens_view(v@.take(i + 1)) =~= tokens_view(v@.take(i as int)).push(v@[i as int]@));
        assert(tokens_view(r@) =~= tokens_view(r@.drop_last()).push(r@.last()@));
        i = i + 1;
    }
    assert(v@.take(v@.len() as int) =~= v@);
    r
}

/// A Markov model of sentences: for each window of up to `prefix_length` preceding
/// tokens, how often each token, or the end of the sentence, came next.
pub struct PrefixTable {
    prefix_length: usize,
    keys: Vec<Vec<String>>,
    dists: Vec<WordDistribution>,
    observations: u64,
    model: Ghost<Map<Seq<Seq<char>>, Seq<(Seq<char>, nat)>>>,
}

impl View for PrefixTable {
    type V = Map<Seq<Seq<char>>, Seq<(Seq<char>, nat)>>;

    closed spec fn view(&self) -> Map<Seq<Seq<char>>, Seq<(Seq<char>, nat)>> {
        self.model@
    }
}

impl PrefixTable {
    /// The most tokens a window holds.
    pub closed spec fn order(&self) -> nat {
        self.prefix_length as nat
    }

    /// The number of occurrences that training has set aside room for; no count
    /// exceeds it.
    pub closed spec fn recorded(&self) -> nat {
        self.observations as nat
    }

    closed spec fn key_at(&self, i: int) -> Seq<Seq<char>> {
        tokens_view(self.keys@[i]@)
    }

    /// Room for `r` more occurrences in every distribution.
    closed spec fn room(&self, r: nat) -> bool {
        &&& r <= self.observations
        &&& forall|i: int| 0 <= i < self.dists@.len() ==> total_of(#[trigger] self.dists@[i]@) + r <= self.observations
    }

    /// The fields agree with the model, which has one distribution per window.
    pub closed spec fn wf(&self) -> bool {
        &&& self.keys@.len() == self.dists@.len()
        &&& forall|i: int| 0 <= i < self.dists@.len() ==> (#[trigger] self.dists@[i]).wf()
        &&& self.room(0)
        &&& forall|i: int| 0 <= i < self.keys@.len() ==> self.model@.contains_key(#[trigger] self.key_at(i))
            && self.model@[self.key_at(i)] == self.dists@[i]@
        &&& forall|i: int, j: int| 0 <= i < j < self.keys@.len() ==> self.key_at(i) != self.key_at(j)
        &&& forall|k: Seq<Seq<char>>| #[trigger] self.model@.contains_key(k) ==> exists|i: int| 0 <= i < self.keys@.len() && self.key_at(i) == k
        &&& forall|k: Seq<Seq<char>>| #[trigger] self.model@.contains_key(k) ==> k.len() <= self.prefix_length
            && entries_valid(self.model@[k]) && self.model@[k].len() > 0
    }

    /// An empty model whose windows hold at most `prefix_length` tokens.
    pub fn new(prefix_length: u32) -> (t: PrefixTable)
        ensures
            t.wf(),
            t.order() == prefix_length,
            t.recorded() == 0,
            t@ == Map::<Seq<Seq<char>>, Seq<(Seq<char>, nat)>>::empty(),
    {
        PrefixTable {
            prefix_length: prefix_length as usize,
            keys: Vec::new(),
            dists: Vec::new(),
            observations: 0,
            model: Ghost(Map::empty()),
        }
    }

    /// In a well-formed model every window holds at most `order()` tokens, and its
    /// distribution has at least one entry, at most one per token, and only
    /// positive counts.
    pub proof fn lemma_wf_windows(&self)
        requires
            self.wf(),
        ensures
            forall|k: Seq<Seq<char>>| #[trigger] self@.contains_key(k) ==> k.len() <= self.order()
                && entries_valid(self@[k]) && self@[k].len() > 0,
    {
    }

    /// The most tokens a window holds.
    pub fn prefix_length(&self) -> (r: usize)
        ensures
            r == self.order(),
    {
        self.prefix_length
    }

    /// The number of distinct windows that the model has a distribution for.
    pub fn len(&self) -> (r: usize)
        requires
            self.wf(),
        ensures
            r == self@.dom().len(),
    {
        let ghost ks = Seq::new(self.keys@.len(), |i: int| self.key_at(i));
        proof {
            assert(ks.no_duplicates()) by {
                assert forall|a: int, b: int| 0 <= a < ks.len() && 0 <= b < ks.len() && a != b implies ks[a] != ks[b] by {
                    if a < b {
                        assert(self.key_at(a) != self.key_at(b));
                    } else {
                        assert(self.key_at(b) != self.key_at(a));
                    }
                }
            }
            assert(self@.dom() =~= ks.to_set()) by {
                assert forall|k: Seq<Seq<char>>| self@.dom().contains(k) implies ks.to_set().contains(k) by {
                    assert(self.model@.contains_key(k));
                    let j = choose|j: int| 0 <= j < self.keys@.len() && self.key_at(j) == k;
                    assert(ks[j] == k);
                }
                assert forall|k: Seq<Seq<char>>| ks.to_set().contains(k) implies self@.dom().contains(k) by {
                    let j = choose|j: int| 0 <= j < ks.len() && ks[j] == k;
                    assert(self.model@.contains_key(self.key_at(j)));
                }
            }
            ks.unique_seq_to_set();
        }
        self.keys.len()
    }

    /// How often `word` was seen after the window `prefix`; zero for a window the
    /// model has no distribution for.
    pub fn count(&self, prefix: &Vec<String>, word: &str) -> (r: u64)
        requires
            self.wf(),
        ensures
            self@.contains_key(tokens_view(prefix@)) ==> r == count_of(self@[tokens_view(prefix@)], word@),
            !self@.contains_key(tokens_view(prefix@)) ==> r == 0,
    {
        match self.find(prefix) {
            Some(i) => self.dists[i].count(word),
            None => 0,
        }
    }

    /// Where the distribution for the window `key` stands, if there is one.
    fn find(&self, key: &Vec<String>) -> (r: Option<usize>)
        requires
            self.wf(),
        ensures
            r matches Some(i) ==> i < self.keys@.len() && self.key_at(i as int) == tokens_view(key@),
            r is None ==> !self@.contains_key(tokens_view(key@)),
    {
        let mut i: usize = 0;
        while i < self.keys.len()
            invariant
                self.wf(),
                0 <= i <= self.keys@.len(),
                forall|j: int| 0 <= j < i ==> self.key_at(j) != tokens_view(key@),
            decreases self.keys@.len() - i,
        {
            if same_tokens(&self.keys[i], key) {
                return Some(i);
            }
            i = i + 1;
        }
        None
    }

    /// Trains the model on one sentence: from the window that holds the start
    /// token, each token is recorded after the current window and then pushed onto
    /// it, and the end of the sentence is recorded after the last window. A
    /// sentence that would take `recorded()` past `u64::MAX` is left out.
    pub fn add_sentence(&mut self, sentence: Vec<String>) -> (r: &mut PrefixTable)
        requires
            old(self).wf(),
        ensures
            r.wf(),
            r.order() == old(self).order(),
            (r@, r.recorded()) == learn(
                old(self)@,
                old(self).recorded(),
                old(self).order(),
                tokens_view(sentence@),
            ),
            *final(self) == *final(r),
    {
        let len = sentence.len();
        if len as u64 >= u64::MAX - self.observations {
            return self;
        }
        let ghost n = self.prefix_length as nat;
        let ghost sv = tokens_view(sentence@);
        let ghost target = trained(old(self)@, n, sv);
        self.observations = self.observations + len as u64 + 1;
        assert(self.room((len + 1) as nat)) by {
            assert forall|i: int| 0 <= i < self.dists@.len() implies total_of(#[trigger] self.dists@[i]@) + (len + 1) <= self.observations by {
                assert(old(self).dists@[i] == self.dists@[i]);
                assert(total_of(old(self).dists@[i]@) + 0 <= old(self).observations);
            }
        }
        assert(self.room(0)) by {
            assert forall|i: int| 0 <= i < self.dists@.len() implies total_of(#[trigger] self.dists@[i]@) + 0 <= self.observations by {
                assert(old(self).dists@[i] == self.dists@[i]);
                assert(total_of(old(self).dists@[i]@) + 0 <= old(self).observations);
            }
        }
        assert forall|i: int| 0 <= i < self.keys@.len() implies self.model@.contains_key(#[trigger] self.key_at(i))
            && self.model@[self.key_at(i)] == self.dists@[i]@ by {
            assert(old(self).key_at(i) == self.key_at(i));
        }
        assert forall|a: int, b: int| 0 <= a < b < self.keys@.len() implies self.key_at(a) != self.key_at(b) by {
            assert(old(self).key_at(a) == self.key_at(a));
            assert(old(self).key_at(b) == self.key_at(b));
        }
        assert forall|k: Seq<Seq<char>>| #[trigger] self.model@.contains_key(k) implies exists|j: int| 0 <= j < self.keys@.len() && self.key_at(j) == k by {
            assert(old(self).model@.contains_key(k));
            let j = choose|j: int| 0 <= j < old(self).keys@.len() && old(self).key_at(j) == k;
            assert(self.key_at(j) == k);
        }
        assert(self.wf());
        let start = String::new();
        let mut prefix = Prefix::new(self.prefix_length);
        prefix.push(start.as_str());
        assert(Seq::<Seq<char>>::empty().push(start_token()) =~= seq![start_token()]);
        assert(sv.skip(0) =~= sv);
        let mut j: usize = 0;
        while j < sentence.len()
            invariant
                self.wf(),
                prefix.wf(),
                prefix.capacity() == self.prefix_length,
                self.prefix_length == n,
                0 <= j <= sentence@.len(),
                len == sentence@.len(),
                self.room((len - j + 1) as nat),
                self.observations == old(self).observations + len + 1,
                sv == tokens_view(sentence@),
                train_from(self@, n, prefix@, sv.skip(j as int)) == target,
            decreases sentence@.len() - j,
        {
            assert(sv.skip(j as int)[0] == sentence@[j as int]@);
            assert(sv.skip(j as int).drop_first() =~= sv.skip(j + 1));
            self.record(prefix.words(), sentence[j].as_str(), Ghost((len - j + 1) as nat));
            prefix.push(sentence[j].as_str());
            j = j + 1;
        }
        let stop = String::new();
        assert(prefix@.len() <= self.prefix_length);
        assert(sv.skip(len as int) =~= Seq::<Seq<char>>::empty());
        self.record(prefix.words(), stop.as_str(), Ghost(1));
        self
    }

    /// One walk through the model: from the window that holds the start token,
    /// draw a token from the current window's distribution and push it, until the
    /// end of a sentence is drawn, the window has no distribution, or
    /// `MAX_WALK_TOKENS` tokens were produced. The tokens drawn, without the end,
    /// are returned.
    pub fn walk(&self) -> (r: Vec<String>)
        requires
            self.wf(),
        ensures
            follows(self@, self.order(), tokens_view(r@)),
            r@.len() <= MAX_WALK_TOKENS,
            r@.len() < MAX_WALK_TOKENS ==> may_end(self@, self.order(), tokens_view(r@)),
    {
        let ghost n = self.prefix_length as nat;
        let start = String::new();
        let mut prefix = Prefix::new(self.prefix_length);
        prefix.push(start.as_str());
        let mut result: Vec<String> = Vec::new();
        assert(seq![start_token()] + tokens_view(result@) =~= Seq::<Seq<char>>::empty().push(start_token()));
        while result.len() < MAX_WALK_TOKENS
            invariant
                self.wf(),
                prefix.wf(),
                prefix.capacity() == self.prefix_length,
                self.prefix_length == n,
                prefix@ == window_after(n, tokens_view(result@)),
                follows(self@, n, tokens_view(result@)),
                result@.len() <= MAX_WALK_TOKENS,
            decreases MAX_WALK_TOKENS - result@.len(),
        {
            let ghost out = tokens_view(result@);
            match self.find(prefix.words()) {
                None => {
                    return result;
                },
                Some(i) => {
                    let ghost e = self.dists@[i as int]@;
                    assert(self.model@.contains_key(self.key_at(i as int)));
                    proof {
                        lemma_total_take(e, 0);
                        lemma_total_take(e, 1);
                    }
                    match self.dists[i].get_random() {
                        None => {
                            return result;
                        },
                        Some(word) => {
                            if word.as_str().is_empty() {
                                assert(word@ =~= stop_token());
                                return result;
                            }
                            proof {
                                lemma_sliding_window(seq![start_token()] + out, prefix@, word@, n);
                                assert((seq![start_token()] + out).push(word@) =~= seq![start_token()] + out.push(word@));
                            }
                            prefix.push(word.as_str());
                            result.push(word);
                            let ghost out2 = tokens_view(result@);
                            assert(out2 =~= out.push(word@));
                            assert forall|k: int| 0 <= k < out2.len() implies #[trigger] out2[k] != stop_token()
                                && self@.contains_key(window_after(n, out2.take(k)))
                                && count_of(self@[window_after(n, out2.take(k))], out2[k]) > 0 by {
                                if k < out.len() {
                                    assert(out2.take(k) =~= out.take(k));
                                    assert(out2[k] == out[k]);
                                } else {
                                    assert(out2.take(k) =~= out);
                                }
                            }
                        },
                    }
                },
            }
        }
        result
    }

    /// Records one more occurrence of `word` after the window `key`.
    fn record(&mut self, key: &Vec<String>, word: &str, Ghost(r): Ghost<nat>)
        requires
            old(self).wf(),
            old(self).room(r),
            r >= 1,
            key@.len() <= old(self).prefix_length,
        ensures
            final(self).wf(),
            final(self).room((r - 1) as nat),
            final(self)@ == record(old(self)@, tokens_view(key@), word@),
            final(self).prefix_length == old(self).prefix_length,
            final(self).observations == old(self).observations,
    {
        let ghost k = tokens_view(key@);
        match self.find(key) {
            Some(i) => {
                assert(self.dists@[i as int].wf());
                assert(total_of(self.dists@[i as int]@) + r <= self.observations);
                self.dists[i].add(word);
                proof {
                    lemma_with_added(old(self).dists@[i as int]@, word@);
                    self.model@ = record(self.model@, k, word@);
                }
                assert forall|j: int| 0 <= j < self.keys@.len() implies self.model@.contains_key(#[trigger] self.key_at(j))
                    && self.model@[self.key_at(j)] == self.dists@[j]@ by {
                    if j != i {
                        assert(old(self).key_at(j) == self.key_at(j));
                        assert(old(self).dists@[j] == self.dists@[j]);
                    }
                }
                assert forall|k2: Seq<Seq<char>>| #[trigger] self.model@.contains_key(k2) implies exists|j: int| 0 <= j < self.keys@.len() && self.key_at(j) == k2 by {
                    if k2 != k {
                        assert(old(self).model@.contains_key(k2));
                        let j = choose|j: int| 0 <= j < old(self).keys@.len() && old(self).key_at(j) == k2;
                        assert(self.key_at(j) == k2);
                    } else {
                        assert(self.key_at(i as int) == k2);
                    }
                }
                assert forall|a: int, b: int| 0 <= a < b < self.keys@.len() implies self.key_at(a) != self.key_at(b) by {
                    assert(old(self).key_at(a) == self.key_at(a));
                    assert(old(self).key_at(b) == self.key_at(b));
                }
            },
            None => {
                let mut d = WordDistribution::new();
                d.add(word);
                proof {
                    lemma_with_added(Seq::empty(), word@);
                    assert(with_added(Seq::empty(), word@) =~= seq![(word@, 1nat)]);
                }
                self.keys.push(copy_tokens(key));
                self.dists.push(d);
                proof {
                    self.model@ = record(self.model@, k, word@);
                }
                let ghost last = self.keys@.len() - 1;
                assert(self.key_at(last) == k);
                assert forall|j: int| 0 <= j < self.keys@.len() implies self.model@.contains_key(#[trigger] self.key_at(j))
                    && self.model@[self.key_at(j)] == self.dists@[j]@ by {
                    if j != last {
                        assert(old(self).key_at(j) == self.key_at(j));
                        assert(old(self).dists@[j] == self.dists@[j]);
                    }
                }
                assert forall|a: int, b: int| 0 <= a < b < self.keys@.len() implies self.key_at(a) != self.key_at(b) by {
                    if b == last {
                        assert(old(self).model@.contains_key(old(self).key_at(a)));
                        assert(old(self).key_at(a) == self.key_at(a));
                    } else {
                        assert(old(self).key_at(a) == self.key_at(a));
                        assert(old(self).key_at(b) == self.key_at(b));
                    }
                }
                assert forall|k2: Seq<Seq<char>>| #[trigger] self.model@.contains_key(k2) implies exists|j: int| 0 <= j < self.keys@.len() && self.key_at(j) == k2 by {
                    if k2 != k {
                        assert(old(self).model@.contains_key(k2));
                        let j = choose|j: int| 0 <= j < old(self).keys@.len() && old(self).key_at(j) == k2;
                        assert(self.key_at(j) == k2);
                    }
                }
            },
        }
    }
}

} // verus!
