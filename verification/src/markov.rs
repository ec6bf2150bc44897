//! The chain: an n-gram index of a fixed order, the trainer that fills it and
//! the generator that walks it.

use crate::index::{copy_words, followers_in, NgramIndex, Words};
use crate::lexicon::Lexicons;
use crate::models::Metadata;
use crate::random::choose_word;
use crate::text::{is_space, is_word, join, join_with, split_whitespace, word_len, words};
use crate::text::{lemma_word_len_bounds, lemma_words_of_join};
use vstd::prelude::*;
use vstd::slice::slice_subrange;

verus! {

/// Whether every element of `ws` is a word.
pub open spec fn all_words(ws: Words) -> bool {
    forall|i: int| 0 <= i < ws.len() ==> is_word(#[trigger] ws[i])
}

/// The window of `order` words that starts at position `at`.
pub open spec fn window_at(tokens: Words, order: nat, at: int) -> Words {
    tokens.subrange(at, at + order)
}

/// How many windows of `tokens` have a word after them.
pub open spec fn transitions(tokens: Words, order: nat) -> nat {
    if tokens.len() > order {
        (tokens.len() - order) as nat
    } else {
        0
    }
}

/// How many windows of `order` words a text of `len` words has.
pub open spec fn full_windows(len: nat, order: nat) -> nat {
    if len >= order {
        (len - order + 1) as nat
    } else {
        0
    }
}

/// The words that follow `key` among the first `count` windows of `tokens`,
/// in the order of the text.
pub open spec fn observed(tokens: Words, order: nat, key: Words, count: nat) -> Words
    decreases count,
{
    if count == 0 {
        Seq::empty()
    } else {
        let earlier = observed(tokens, order, key, (count - 1) as nat);
        if window_at(tokens, order, count - 1) == key {
            earlier.push(tokens[count - 1 + order])
        } else {
            earlier
        }
    }
}

/// `index` after the first `count` windows of `tokens` were recorded: each
/// key keeps its followers and gains, behind them, those observed for it.
pub open spec fn learned(
    index: Map<Words, Words>,
    order: nat,
    tokens: Words,
    count: nat,
) -> Map<Words, Words> {
    Map::new(
        |key: Words| index.contains_key(key) || observed(tokens, order, key, count).len() > 0,
        |key: Words| followers_in(index, key) + observed(tokens, order, key, count),
    )
}

/// `index` after training on `text`.
pub open spec fn trained(index: Map<Words, Words>, order: nat, text: Seq<char>) -> Map<Words, Words> {
    learned(index, order, words(text), transitions(words(text), order))
}

/// What holds of an index of order `order`: every key is a window of `order`
/// words, and every follower list is a non-empty list of words.
pub open spec fn well_formed(index: Map<Words, Words>, order: nat) -> bool {
    forall|key: Words| #[trigger]
        index.contains_key(key) ==> key.len() == order && index[key].len() > 0 && all_words(
            index[key],
        )
}

/// Splitting at whitespace yields words.
pub proof fn lemma_words_are_words(s: Seq<char>)
    ensures
        all_words(words(s)),
    decreases s.len(),
{
    if s.len() == 0 {
    } else if is_space(s[0]) {
        lemma_words_are_words(s.drop_first());
    } else {
        lemma_word_len_bounds(s);
        let n = word_len(s) as int;
        lemma_words_are_words(s.skip(n));
        let rest = words(s.skip(n));
        assert forall|i: int| 0 <= i < words(s).len() implies is_word(#[trigger] words(s)[i]) by {
            if i == 0 {
                assert(words(s)[0] == s.take(n));
            } else {
                assert(words(s)[i] == rest[i - 1]);
            }
        }
    }
}

/// Whether `word` stands right behind the window of `tokens` that starts at
/// `at`, and that window is `key`.
pub open spec fn follows_at(
    tokens: Words,
    order: nat,
    key: Words,
    at: int,
    word: Seq<char>,
) -> bool {
    window_at(tokens, order, at) == key && tokens[at + order] == word
}

/// Whether `word` stands right behind one of the first `count` windows of
/// `tokens`, and that window is `key`.
pub open spec fn follows_key(
    tokens: Words,
    order: nat,
    key: Words,
    count: nat,
    word: Seq<char>,
) -> bool {
    exists|at: int| 0 <= at < count && #[trigger] follows_at(tokens, order, key, at, word)
}

/// Every observed follower stands behind an occurrence of the key, and the
/// word behind each occurrence is observed.
pub proof fn lemma_observed(tokens: Words, order: nat, key: Words, count: nat)
    requires
        count <= transitions(tokens, order),
    ensures
        forall|j: int|
            0 <= j < observed(tokens, order, key, count).len() ==> #[trigger] follows_key(
                tokens,
                order,
                key,
                count,
                observed(tokens, order, key, count)[j],
            ),
        forall|i: int|
            0 <= i < count && #[trigger] window_at(tokens, order, i) == key ==> observed(
                tokens,
                order,
                key,
                count,
            ).contains(tokens[i + order]),
    decreases count,
{
    if count > 0 {
        let earlier = observed(tokens, order, key, (count - 1) as nat);
        let now = observed(tokens, order, key, count);
        lemma_observed(tokens, order, key, (count - 1) as nat);
        assert forall|j: int| 0 <= j < now.len() implies #[trigger] follows_key(
            tokens,
            order,
            key,
            count,
            now[j],
        ) by {
            if j < earlier.len() {
                assert(now[j] == earlier[j]);
                assert(follows_key(tokens, order, key, (count - 1) as nat, earlier[j]));
                let i = choose|i: int|
                    0 <= i < count - 1 && #[trigger] follows_at(tokens, order, key, i, earlier[j]);
                assert(follows_at(tokens, order, key, i, now[j]));
            } else {
                assert(follows_at(tokens, order, key, count - 1, now[j]));
            }
        }
        assert forall|i: int|
            0 <= i < count && #[trigger] window_at(tokens, order, i) == key implies now.contains(
            tokens[i + order],
        ) by {
            if i < count - 1 {
                let j = choose|j: int| 0 <= j < earlier.len() && earlier[j] == tokens[i + order];
                assert(now[j] == tokens[i + order]);
            } else {
                assert(now[earlier.len() as int] == tokens[i + order]);
            }
        }
    }
}

/// Recording windows of words keeps an index well formed.
pub proof fn lemma_learned_well_formed(
    index: Map<Words, Words>,
    order: nat,
    tokens: Words,
    count: nat,
)
    requires
        well_formed(index, order),
        all_words(tokens),
        count <= transitions(tokens, order),
    ensures
        well_formed(learned(index, order, tokens, count), order),
{
    let after = learned(index, order, tokens, count);
    assert forall|key: Words| #[trigger] after.contains_key(key) implies key.len() == order
        && after[key].len() > 0 && all_words(after[key]) by {
        let old_list = followers_in(index, key);
        let seen = observed(tokens, order, key, count);
        lemma_observed(tokens, order, key, count);
        if seen.len() > 0 {
            assert(follows_key(tokens, order, key, count, seen[0]));
            let i = choose|i: int|
                0 <= i < count && #[trigger] follows_at(tokens, order, key, i, seen[0]);
            assert(window_at(tokens, order, i).len() == order);
        }
        assert forall|j: int| 0 <= j < after[key].len() implies is_word(#[trigger] after[key][j]) by {
            if j < old_list.len() {
                assert(after[key][j] == old_list[j]);
                assert(index.contains_key(key));
            } else {
                let k = j - old_list.len();
                assert(after[key][j] == seen[k]);
                assert(follows_key(tokens, order, key, count, seen[k]));
                let i = choose|i: int|
                    0 <= i < count && #[trigger] follows_at(tokens, order, key, i, seen[k]);
                assert(is_word(tokens[i + order]));
            }
        }
    }
}

/// The followers that `index` holds for `key` after training on `text` are
/// those it held before, then those observed for `key` in `text`.
pub proof fn lemma_trained_followers(
    index: Map<Words, Words>,
    order: nat,
    text: Seq<char>,
    key: Words,
)
    ensures
        followers_in(trained(index, order, text), key) == followers_in(index, key) + observed(
            words(text),
            order,
            key,
            transitions(words(text), order),
        ),
{
    let seen = observed(words(text), order, key, transitions(words(text), order));
    if !trained(index, order, text).contains_key(key) {
        assert(followers_in(index, key) + seen =~= Seq::<Seq<char>>::empty());
    }
}

/// Training only adds: every key stays a key, and its followers stay where
/// they are, before those that the text brings.
pub proof fn lemma_training_only_adds(
    index: Map<Words, Words>,
    order: nat,
    text: Seq<char>,
    key: Words,
)
    requires
        index.contains_key(key),
    ensures
        trained(index, order, text).contains_key(key),
        index[key].is_prefix_of(trained(index, order, text)[key]),
{
    let seen = observed(words(text), order, key, transitions(words(text), order));
    assert((index[key] + seen).subrange(0, index[key].len() as int) =~= index[key]);
}

/// Whether the window of `tokens` that starts at `at` is a key of `index`
/// and the word behind the window is among its followers.
pub open spec fn holds_step(index: Map<Words, Words>, order: nat, tokens: Words, at: int) -> bool {
    let key = window_at(tokens, order, at);
    index.contains_key(key) && index[key].contains(tokens[at + order])
}

/// After training on a text, every window of the text that has a word after
/// it is a key, and that word is among the key's followers.
pub proof fn lemma_trained_holds_text(index: Map<Words, Words>, order: nat, text: Seq<char>)
    ensures
        forall|at: int|
            0 <= at < transitions(words(text), order) ==> #[trigger] holds_step(
                trained(index, order, text),
                order,
                words(text),
                at,
            ),
{
    let tokens = words(text);
    let count = transitions(tokens, order);
    let after = trained(index, order, text);
    assert forall|at: int| 0 <= at < count implies #[trigger] holds_step(
        after,
        order,
        tokens,
        at,
    ) by {
        let key = window_at(tokens, order, at);
        let seen = observed(tokens, order, key, count);
        lemma_observed(tokens, order, key, count);
        assert(seen.contains(tokens[at + order]));
        let j = choose|j: int| 0 <= j < seen.len() && seen[j] == tokens[at + order];
        assert(after[key][followers_in(index, key).len() + j] == tokens[at + order]);
    }
}

/// How often `word` stands in `list`.
pub open spec fn occurrences(list: Words, word: Seq<char>) -> nat {
    list.to_multiset().count(word)
}

/// Training a second time on the same text adds to each follower list what
/// the first training added: a follower's count grows twice by the same
/// amount, so in a chain that was empty before, it doubles.
pub proof fn lemma_training_twice_doubles(
    index: Map<Words, Words>,
    order: nat,
    text: Seq<char>,
    key: Words,
    word: Seq<char>,
)
    ensures
        ({
            let once = trained(index, order, text);
            let twice = trained(once, order, text);
            let before = occurrences(followers_in(index, key), word);
            let gained = occurrences(followers_in(once, key), word) - before;
            &&& gained >= 0
            &&& occurrences(followers_in(twice, key), word) == before + 2 * gained
            &&& index == Map::<Words, Words>::empty() ==> occurrences(followers_in(twice, key), word)
                == 2 * occurrences(followers_in(once, key), word)
        }),
{
    let once = trained(index, order, text);
    let seen = observed(words(text), order, key, transitions(words(text), order));
    lemma_trained_followers(index, order, text, key);
    lemma_trained_followers(once, order, text, key);
    vstd::seq_lib::lemma_multiset_commutative(followers_in(index, key), seen);
    vstd::seq_lib::lemma_multiset_commutative(followers_in(once, key), seen);
    if index == Map::<Words, Words>::empty() {
        followers_in(index, key).to_multiset_ensures();
        assert(!followers_in(index, key).contains(word));
    }
}

/// `index` after training on each of `texts` in turn.
pub open spec fn trained_on_each(
    index: Map<Words, Words>,
    order: nat,
    texts: Seq<Seq<char>>,
) -> Map<Words, Words>
    decreases texts.len(),
{
    if texts.len() == 0 {
        index
    } else {
        trained(trained_on_each(index, order, texts.drop_last()), order, texts.last())
    }
}

/// Each of `values` behind `marker`.
pub open spec fn marked(marker: Seq<char>, values: Words) -> Seq<Seq<char>> {
    values.map_values(|value: Seq<char>| marker + value)
}

/// The marker that stands before a category.
pub open spec fn category_marker() -> Seq<char> {
    "kategori: "@
}

/// The marker that stands before a tag.
pub open spec fn tag_marker() -> Seq<char> {
    "etiket: "@
}

/// `index` after training on `text` and on what it was filed under: the
/// text first, then a sentence for each category, then one for each tag.
pub open spec fn trained_with_metadata(
    index: Map<Words, Words>,
    order: nat,
    text: Seq<char>,
    category: Words,
    tags: Words,
) -> Map<Words, Words> {
    trained_on_each(
        trained_on_each(trained(index, order, text), order, marked(category_marker(), category)),
        order,
        marked(tag_marker(), tags),
    )
}

/// The last `order` of the first `len` words of `walk`; all of them where
/// they are fewer.
pub open spec fn tail_window(walk: Words, order: nat, len: int) -> Words {
    walk.subrange(
        if len >= order {
            len - order
        } else {
            0
        },
        len,
    )
}

/// Whether the word at `at` is a follower of the window that ends before it.
pub open spec fn step_follows(index: Map<Words, Words>, order: nat, walk: Words, at: int) -> bool {
    let window = tail_window(walk, order, at);
    index.contains_key(window) && index[window].contains(walk[at])
}

/// Whether `walk` is a walk over `index` from `seed` of at most `length`
/// steps: it starts with `seed`, each later word follows the window before
/// it, and it ends after `length` steps or where the last window is no key.
pub open spec fn is_walk(
    index: Map<Words, Words>,
    order: nat,
    seed: Seq<char>,
    length: nat,
    walk: Words,
) -> bool {
    &&& 1 <= walk.len() <= length + 1
    &&& walk[0] == seed
    &&& forall|at: int| 1 <= at < walk.len() ==> #[trigger] step_follows(index, order, walk, at)
    &&& walk.len() == length + 1 || !index.contains_key(
        tail_window(walk, order, walk.len() as int),
    )
}

/// Whether `sentence` is the words of `walk` with one space between each
/// two neighbours.
pub open spec fn spells(walk: Words, sentence: Seq<char>) -> bool {
    sentence == join(walk, seq![' '])
}

/// A walk over a well-formed index from a word consists of words.
pub proof fn lemma_walk_of_words(
    index: Map<Words, Words>,
    order: nat,
    seed: Seq<char>,
    length: nat,
    walk: Words,
)
    requires
        well_formed(index, order),
        is_walk(index, order, seed, length, walk),
        is_word(seed),
    ensures
        all_words(walk),
{
    assert forall|at: int| 0 <= at < walk.len() implies is_word(#[trigger] walk[at]) by {
        if at > 0 {
            assert(step_follows(index, order, walk, at));
            let window = tail_window(walk, order, at);
            let j = choose|j: int| 0 <= j < index[window].len() && index[window][j] == walk[at];
            assert(is_word(index[window][j]));
        }
    }
}

/// An order-k chain over words, with the vocabularies of its analyzers.
pub struct MarkovChain {
    chain: NgramIndex,
    order: usize,
    lexicons: Lexicons,
}

impl View for MarkovChain {
    type V = Map<Words, Words>;

    closed spec fn view(&self) -> Map<Words, Words> {
        self.chain@
    }
}

impl MarkovChain {
    /// The number of words in a window, fixed when the chain is made.
    pub closed spec fn order(&self) -> usize {
        self.order
    }

    #[verifier::type_invariant]
    closed spec fn holds(&self) -> bool {
        well_formed(self.chain@, self.order as nat) && self.lexicons.is_standard()
    }

    /// An empty chain with windows of `order` words.
    pub fn new(order: usize) -> (chain: MarkovChain)
        ensures
            chain.order() == order,
            chain@ == Map::<Words, Words>::empty(),
            well_formed(chain@, order as nat),
    {
        MarkovChain { chain: NgramIndex::new(), order, lexicons: Lexicons::load() }
    }

    /// The number of words in a window. Every key of the index has that
    /// many words, and every follower list is a non-empty list of words.
    pub fn order_of(&self) -> (order: usize)
        ensures
            order == self.order(),
            well_formed(self@, order as nat),
    {
        proof {
            use_type_invariant(self);
        }
        self.order
    }

    /// The vocabularies that the analyzers read.
    pub fn lexicons(&self) -> (lexicons: &Lexicons)
        ensures
            lexicons.is_standard(),
    {
        proof {
            use_type_invariant(self);
        }
        &self.lexicons
    }

    /// The followers recorded for `window`, if it is a key of the index.
    pub fn followers(&self, window: &[String]) -> (list: Option<&Vec<String>>)
        ensures
            match list {
                Some(found) => {
                    &&& self@.contains_key(window.deep_view())
                    &&& found.deep_view() == self@[window.deep_view()]
                    &&& window.len() == self.order()
                    &&& found.len() > 0
                    &&& all_words(found.deep_view())
                },
                None => !self@.contains_key(window.deep_view()),
            },
    {
        proof {
            use_type_invariant(self);
        }
        self.chain.get(window)
    }

    /// Splits `text` at whitespace and records, for each window of words
    /// that has a word after it, that word as a follower of the window.
    pub fn train(&mut self, text: &str)
        ensures
            final(self).order() == old(self).order(),
            final(self)@ == trained(old(self)@, old(self).order() as nat, text@),
            well_formed(final(self)@, final(self).order() as nat),
            forall|at: int|
                0 <= at < transitions(words(text@), old(self).order() as nat) ==> #[trigger] holds_step(
                    final(self)@,
                    old(self).order() as nat,
                    words(text@),
                    at,
                ),
    {
        proof {
            use_type_invariant(&*self);
            lemma_words_are_words(text@);
            lemma_trained_holds_text(self@, self.order as nat, text@);
        }
        let ghost before = self@;
        let ghost tokens = words(text@);
        let ghost order = self.order as nat;
        let words = split_whitespace(text);
        if words.len() <= self.order {
            assert(learned(before, order, tokens, 0) =~= before);
            return;
        }
        let count: usize = words.len() - self.order;
        let mut chain = NgramIndex::new();
        core::mem::swap(&mut self.chain, &mut chain);
        assert(chain@ =~= learned(before, order, tokens, 0));
        let mut i: usize = 0;
        while i < count
            invariant
                i <= count,
                count + self.order == words.len(),
                order == self.order,
                words.deep_view() == tokens,
                chain@ == learned(before, order, tokens, i as nat),
            decreases count - i,
        {
            let window = copy_words(slice_subrange(words.as_slice(), i, i + self.order));
            let next = words[i + self.order].clone();
            proof {
                assert(window.deep_view() =~= window_at(tokens, order, i as int));
                assert(next@ == tokens[i + order]);
                let key = window.deep_view();
                let recorded = chain@.insert(key, followers_in(chain@, key).push(next@));
                let target = learned(before, order, tokens, (i + 1) as nat);
                assert forall|k: Words| #[trigger] recorded.contains_key(k) == target.contains_key(k) by {}
                assert forall|k: Words| #[trigger] recorded.contains_key(k) implies recorded[k] == target[k] by {
                    if k == key {
                        assert(recorded[k] =~= target[k]);
                    }
                }
                assert(recorded =~= target);
            }
            chain.record(window, next);
            i = i + 1;
        }
        proof {
            lemma_learned_well_formed(before, order, tokens, count as nat);
        }
        core::mem::swap(&mut self.chain, &mut chain);
    }

    /// Trains on each of `values` with `marker` before it.
    pub fn train_marked(&mut self, marker: &str, values: &Vec<String>)
        ensures
            final(self).order() == old(self).order(),
            final(self)@ == trained_on_each(
                old(self)@,
                old(self).order() as nat,
                marked(marker@, values.deep_view()),
            ),
    {
        let ghost before = self@;
        let ghost order = self.order() as nat;
        let ghost sentences = marked(marker@, values.deep_view());
        let mut i: usize = 0;
        while i < values.len()
            invariant
                i <= values.len(),
                self.order() == order,
                sentences == marked(marker@, values.deep_view()),
                self@ == trained_on_each(before, order, sentences.take(i as int)),
            decreases values.len() - i,
        {
            let mut sentence = marker.to_owned();
            sentence.append(values[i].as_str());
            proof {
                assert(sentence@ == sentences[i as int]);
                assert(sentences.take(i + 1).drop_last() =~= sentences.take(i as int));
            }
            self.train(sentence.as_str());
            i = i + 1;
        }
        assert(sentences.take(values.len() as int) =~= sentences);
    }

    /// Trains on `text`, then on the sentence `kategori: <category>` for
    /// each category of `metadata`, then on `etiket: <tag>` for each tag.
    pub fn train_with_metadata(&mut self, text: &str, metadata: &Metadata)
        ensures
            final(self).order() == old(self).order(),
            final(self)@ == trained_with_metadata(
                old(self)@,
                old(self).order() as nat,
                text@,
                metadata.category.deep_view(),
                metadata.tags.deep_view(),
            ),
    {
        self.train(text);
        self.train_marked("kategori: ", &metadata.category);
        self.train_marked("etiket: ", &metadata.tags);
    }

    /// Walks the index from `start`: up to `length` times, looks up the last
    /// `order` words and appends one of their followers, picked at random;
    /// stops at the first window that is no key.
    pub fn random_walk(&self, start: &str, length: usize) -> (walk: Vec<String>)
        ensures
            is_walk(self@, self.order() as nat, start@, length as nat, walk.deep_view()),
    {
        let ghost order = self.order as nat;
        let mut rng = rand::thread_rng();
        let mut walk: Vec<String> = Vec::new();
        walk.push(start.to_owned());
        let mut steps: usize = 0;
        while steps < length
            invariant
                steps <= length,
                walk.len() == steps + 1,
                order == self.order,
                walk@[0]@ == start@,
                forall|at: int|
                    1 <= at < walk.len() ==> #[trigger] step_follows(
                        self@,
                        order,
                        walk.deep_view(),
                        at,
                    ),
            decreases length - steps,
        {
            let len = walk.len();
            let from: usize = if len >= self.order {
                len - self.order
            } else {
                0
            };
            let ghost earlier = walk.deep_view();
            let window = slice_subrange(walk.as_slice(), from, len);
            assert(window.deep_view() =~= tail_window(earlier, order, len as int));
            let next = match self.followers(window) {
                Some(list) => match choose_word(list, &mut rng) {
                    Some(word) => {
                        assert(self@[window.deep_view()].contains(word@)) by {
                            let i = choose|i: int| 0 <= i < list@.len() && list@[i]@ == word@;
                            assert(list.deep_view()[i] == word@);
                        }
                        word.clone()
                    },
                    None => { return walk; },
                },
                None => { return walk; },
            };
            walk.push(next);
            proof {
                let now = walk.deep_view();
                assert(now =~= earlier.push(next@));
                assert forall|at: int| 1 <= at < walk.len() implies #[trigger] step_follows(
                    self@,
                    order,
                    now,
                    at,
                ) by {
                    assert(tail_window(now, order, at) =~= tail_window(earlier, order, at));
                    if at < len {
                        assert(step_follows(self@, order, earlier, at));
                    }
                }
            }
            steps = steps + 1;
        }
        walk
    }

    /// A sentence from a random walk that starts at `start` and takes up to
    /// `length` steps: the words of the walk, joined by single spaces. Where
    /// `start` is a word, the sentence splits into exactly the words of the
    /// walk: the first is `start`, and there are at most `length + 1`.
    pub fn generate(&self, start: &str, length: usize) -> (sentence: String)
        ensures
            exists|walk: Words| #[trigger]
                is_walk(self@, self.order() as nat, start@, length as nat, walk) && spells(
                    walk,
                    sentence@,
                ) && (is_word(start@) ==> words(sentence@) == walk),
            is_word(start@) ==> 1 <= words(sentence@).len() <= length + 1,
            is_word(start@) ==> words(sentence@)[0] == start@,
    {
        let walk = self.random_walk(start, length);
        proof {
            use_type_invariant(self);
            reveal_strlit(" ");
            assert(" "@ =~= seq![' ']);
            if is_word(start@) {
                lemma_walk_of_words(
                    self@,
                    self.order as nat,
                    start@,
                    length as nat,
                    walk.deep_view(),
                );
                lemma_words_of_join(walk.deep_view());
            }
        }
        join_with(&walk, " ")
    }
}

impl Default for MarkovChain {
    /// An empty chain of order zero.
    fn default() -> (chain: MarkovChain)
        ensures
            chain.order() == 0,
            chain@ == Map::<Words, Words>::empty(),
    {
        MarkovChain::new(0)
    }
}

} // verus!
