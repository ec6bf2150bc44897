//! The heuristic analyzers: sentiment, categories, keywords, tags and
//! importance.

use crate::index::{followers_in, Words};
use crate::lexicon::{category_names, negative_words, positive_words, tag_names};
use crate::markov::{full_windows, window_at, MarkovChain};
use crate::models::{ContentAnalysis, Importance};
use crate::score::Score;
use crate::text::{contains, is_substring, lowercase, split_whitespace, words};
use vstd::prelude::*;
use vstd::slice::slice_subrange;
use vstd::string::StrSliceExecFns;

verus! {

/// The test for membership in `list`.
pub open spec fn member_of(list: Words) -> spec_fn(Seq<char>) -> bool {
    |word: Seq<char>| list.contains(word)
}

/// The test for a word of more than `limit` characters.
pub open spec fn longer_than(limit: nat) -> spec_fn(Seq<char>) -> bool {
    |word: Seq<char>| word.len() > limit
}

/// The test for a pair whose second part occurs in `hay`.
pub open spec fn needle_in(hay: Seq<char>) -> spec_fn((Seq<char>, Seq<char>)) -> bool {
    |pair: (Seq<char>, Seq<char>)| is_substring(pair.1, hay)
}

/// Each word in its lowercase form.
pub open spec fn lowered(ws: Words) -> Words {
    ws.map_values(in_lowercase())
}

/// Filtering one element more either appends it or changes nothing.
pub proof fn lemma_filter_next<A>(s: Seq<A>, keep: spec_fn(A) -> bool, i: int)
    requires
        0 <= i < s.len(),
    ensures
        s.take(i + 1).filter(keep) == if keep(s[i]) {
            s.take(i).filter(keep).push(s[i])
        } else {
            s.take(i).filter(keep)
        },
{
    reveal(Seq::filter);
    assert(s.take(i + 1).drop_last() =~= s.take(i));
}

/// A filter that no element passes leaves nothing.
pub proof fn lemma_filter_none<A>(s: Seq<A>, keep: spec_fn(A) -> bool)
    requires
        forall|i: int| 0 <= i < s.len() ==> !keep(#[trigger] s[i]),
    ensures
        s.filter(keep).len() == 0,
    decreases s.len(),
{
    reveal(Seq::filter);
    if s.len() > 0 {
        assert forall|i: int| 0 <= i < s.drop_last().len() implies !keep(
            #[trigger] s.drop_last()[i],
        ) by {
            assert(s.drop_last()[i] == s[i]);
        }
        lemma_filter_none(s.drop_last(), keep);
    }
}

/// Whether `word` stands in `list`.
pub fn contains_word(list: &[String], word: &String) -> (found: bool)
    ensures
        found == list.deep_view().contains(word@),
{
    let mut i: usize = 0;
    while i < list.len()
        invariant
            i <= list.len(),
            forall|k: int| 0 <= k < i ==> list.deep_view()[k] != word@,
        decreases list.len() - i,
    {
        if list[i] == *word {
            assert(list.deep_view()[i as int] == word@);
            return true;
        }
        i = i + 1;
    }
    false
}

/// How many of `tokens` stand in `list`, each occurrence counted.
pub fn count_members(tokens: &[String], list: &[String]) -> (count: usize)
    ensures
        count == tokens.deep_view().filter(member_of(list.deep_view())).len(),
{
    let ghost all = tokens.deep_view();
    let ghost keep = member_of(list.deep_view());
    let mut count: usize = 0;
    let mut i: usize = 0;
    assert(all.take(0).filter(keep).len() == 0) by {
        reveal(Seq::filter);
    }
    while i < tokens.len()
        invariant
            i <= tokens.len(),
            all == tokens.deep_view(),
            keep == member_of(list.deep_view()),
            count <= i,
            count == all.take(i as int).filter(keep).len(),
        decreases tokens.len() - i,
    {
        proof {
            lemma_filter_next(all, keep, i as int);
        }
        if contains_word(list, &tokens[i]) {
            count = count + 1;
        }
        i = i + 1;
    }
    assert(all.take(tokens.len() as int) =~= all);
    count
}

/// The words of `text`, each in lowercase.
pub fn lowercase_words(text: &str) -> (tokens: Vec<String>)
    ensures
        tokens.deep_view() == lowered(words(text@)),
{
    let plain = split_whitespace(text);
    let mut tokens: Vec<String> = Vec::new();
    let mut i: usize = 0;
    while i < plain.len()
        invariant
            i <= plain.len(),
            tokens.len() == i,
            forall|k: int| 0 <= k < i ==> tokens@[k]@ == lowercase(plain@[k]@),
        decreases plain.len() - i,
    {
        tokens.push(plain[i].as_str().to_lowercase());
        i = i + 1;
    }
    assert(tokens.deep_view() =~= lowered(plain.deep_view()));
    tokens
}

/// The label for `positive` positive and `negative` negative words: the
/// greater count wins, and a tie is neutral.
pub open spec fn sentiment(positive: nat, negative: nat) -> Seq<char> {
    if positive > negative {
        "positive"@
    } else if negative > positive {
        "negative"@
    } else {
        "neutral"@
    }
}

/// The names whose needle, the element of `needles` at the same place,
/// occurs in `hay`; none where the two lists differ in length.
pub open spec fn selected(names: Words, needles: Words, hay: Seq<char>) -> Words {
    names.zip_with(needles).filter(needle_in(hay)).map_values(
        |pair: (Seq<char>, Seq<char>)| pair.0,
    )
}

/// The first five words of `text` that have more than three characters.
pub open spec fn keywords_of(text: Seq<char>) -> Words {
    let long = words(text).filter(longer_than(3));
    if long.len() <= 5 {
        long
    } else {
        long.take(5)
    }
}

/// How many of `queries`, each occurrence counted, are among the followers
/// that `index` holds for `window`.
pub open spec fn window_hits(index: Map<Words, Words>, window: Words, queries: Words) -> nat {
    queries.filter(member_of(followers_in(index, window))).len()
}

/// The sum of `window_hits` over the first `count` windows of `tokens`.
pub open spec fn chain_hits(
    index: Map<Words, Words>,
    order: nat,
    tokens: Words,
    queries: Words,
    count: nat,
) -> nat
    decreases count,
{
    if count == 0 {
        0
    } else {
        chain_hits(index, order, tokens, queries, (count - 1) as nat) + window_hits(
            index,
            window_at(tokens, order, count - 1),
            queries,
        )
    }
}

/// No window counts more hits than there are queries.
pub proof fn lemma_chain_hits_bound(
    index: Map<Words, Words>,
    order: nat,
    tokens: Words,
    queries: Words,
    count: nat,
)
    ensures
        chain_hits(index, order, tokens, queries, count) <= count * queries.len(),
    decreases count,
{
    if count > 0 {
        lemma_chain_hits_bound(index, order, tokens, queries, (count - 1) as nat);
        let window = window_at(tokens, order, count - 1);
        queries.lemma_filter_len(member_of(followers_in(index, window)));
        assert((count - 1) * queries.len() + queries.len() == count * queries.len())
            by (nonlinear_arith);
    } else {
        assert(0 * queries.len() == 0) by (nonlinear_arith);
    }
}

/// Where none of `queries` is among the followers of any of the first
/// `count` windows of `tokens`, these windows count no hit.
pub proof fn lemma_no_follower_no_hit(
    index: Map<Words, Words>,
    order: nat,
    tokens: Words,
    queries: Words,
    count: nat,
)
    requires
        forall|at: int, q: int|
            0 <= at < count && 0 <= q < queries.len() ==> !followers_in(
                index,
                #[trigger] window_at(tokens, order, at),
            ).contains(#[trigger] queries[q]),
    ensures
        chain_hits(index, order, tokens, queries, count) == 0,
    decreases count,
{
    if count > 0 {
        lemma_no_follower_no_hit(index, order, tokens, queries, (count - 1) as nat);
        let window = window_at(tokens, order, count - 1);
        assert forall|q: int| 0 <= q < queries.len() implies !member_of(followers_in(index, window))(
            #[trigger] queries[q],
        ) by {}
        lemma_filter_none(queries, member_of(followers_in(index, window)));
    }
}

/// The sentiment of `text`: its positive words against its negative words.
pub open spec fn sentiment_of(text: Seq<char>) -> Seq<char> {
    sentiment(
        words(text).filter(member_of(positive_words())).len(),
        words(text).filter(member_of(negative_words())).len(),
    )
}

/// A word as it stands.
pub open spec fn as_it_is() -> spec_fn(Seq<char>) -> Seq<char> {
    |word: Seq<char>| word
}

/// A word in its lowercase form.
pub open spec fn in_lowercase() -> spec_fn(Seq<char>) -> Seq<char> {
    |word: Seq<char>| lowercase(word)
}

/// The test for a name whose needle, which `needle_of` makes of it, occurs
/// in `hay`.
pub open spec fn found_in(hay: Seq<char>, needle_of: spec_fn(Seq<char>) -> Seq<char>) -> spec_fn(
    Seq<char>,
) -> bool {
    |name: Seq<char>| is_substring(needle_of(name), hay)
}

/// The category names that occur in the lowercase form of `text`.
pub open spec fn categories_of(text: Seq<char>) -> Words {
    category_names().filter(found_in(lowercase(text), as_it_is()))
}

/// The tag names whose lowercase form occurs in the lowercase form of
/// `text`.
pub open spec fn tags_of(text: Seq<char>) -> Words {
    tag_names().filter(found_in(lowercase(text), in_lowercase()))
}

/// Where each needle is made of its name, selecting is filtering the names.
pub proof fn lemma_selected_filters(
    names: Words,
    needle_of: spec_fn(Seq<char>) -> Seq<char>,
    hay: Seq<char>,
)
    ensures
        selected(names, names.map_values(needle_of), hay) == names.filter(found_in(hay, needle_of)),
    decreases names.len(),
{
    reveal(Seq::filter);
    let first = |pair: (Seq<char>, Seq<char>)| pair.0;
    let pairs = names.zip_with(names.map_values(needle_of));
    if names.len() == 0 {
        assert(pairs.filter(needle_in(hay)).map_values(first) =~= names.filter(
            found_in(hay, needle_of),
        ));
    } else {
        let earlier = names.drop_last();
        lemma_selected_filters(earlier, needle_of, hay);
        let fewer = earlier.zip_with(earlier.map_values(needle_of));
        assert(pairs.drop_last() =~= fewer);
        assert(pairs.last() == (names.last(), needle_of(names.last())));
        let kept = fewer.filter(needle_in(hay));
        assert(kept.push(pairs.last()).map_values(first) =~= kept.map_values(first).push(
            names.last(),
        ));
    }
}

/// How many of `tokens` are keywords.
pub open spec fn keyword_count(tokens: Words, keywords: Words) -> nat {
    tokens.filter(member_of(keywords)).len()
}

/// How many windows of a text of `len` words count for its importance:
/// every window of `order` words, the last one too; where a window holds no
/// word, one window before each word.
pub open spec fn importance_windows(len: nat, order: nat) -> nat {
    if order == 0 {
        len
    } else {
        full_windows(len, order)
    }
}

/// The hits of the chain for `keywords` over every window of `tokens`.
pub open spec fn importance_hits(
    index: Map<Words, Words>,
    order: nat,
    tokens: Words,
    keywords: Words,
) -> nat {
    chain_hits(index, order, tokens, keywords, importance_windows(tokens.len(), order))
}

/// For each of `names` whose needle occurs in `hay`, a copy of the name, in
/// the order of the list.
pub fn select_present(names: &[String], needles: &[String], hay: &str) -> (found: Vec<String>)
    ensures
        found.deep_view() == selected(names.deep_view(), needles.deep_view(), hay@),
{
    let mut found: Vec<String> = Vec::new();
    let ghost pairs = names.deep_view().zip_with(needles.deep_view());
    let ghost keep = needle_in(hay@);
    let ghost first = |pair: (Seq<char>, Seq<char>)| pair.0;
    if names.len() != needles.len() {
        assert(pairs.filter(keep) =~= Seq::empty()) by {
            reveal(Seq::filter);
        }
        assert(found.deep_view() =~= pairs.filter(keep).map_values(first));
        return found;
    }
    assert(pairs.take(0).filter(keep) =~= Seq::empty()) by {
        reveal(Seq::filter);
    }
    assert(found.deep_view() =~= pairs.take(0).filter(keep).map_values(first));
    let mut i: usize = 0;
    while i < names.len()
        invariant
            i <= names.len(),
            names.len() == needles.len(),
            pairs == names.deep_view().zip_with(needles.deep_view()),
            pairs.len() == names.len(),
            keep == needle_in(hay@),
            first == |pair: (Seq<char>, Seq<char>)| pair.0,
            found.deep_view() == pairs.take(i as int).filter(keep).map_values(first),
        decreases names.len() - i,
    {
        proof {
            lemma_filter_next(pairs, keep, i as int);
            assert(pairs[i as int] == (names.deep_view()[i as int], needles.deep_view()[i as int]));
        }
        let ghost before = found.deep_view();
        if contains(hay, needles[i].as_str()) {
            found.push(names[i].clone());
            assert(found.deep_view() =~= before.push(names@[i as int]@));
            assert(pairs.take(i as int).filter(keep).push(pairs[i as int]).map_values(first)
                =~= pairs.take(i as int).filter(keep).map_values(first).push(
                names@[i as int]@,
            ));
        }
        i = i + 1;
    }
    assert(pairs.take(names.len() as int) =~= pairs);
    found
}

impl MarkovChain {
    /// Sums, over the first `count` windows of `tokens`, how many of
    /// `queries` are among the followers of the window.
    pub fn count_chain_hits(
        &self,
        tokens: &[String],
        queries: &[String],
        count: usize,
    ) -> (hits: u128)
        requires
            count == 0 || count - 1 + self.order() <= tokens.len(),
        ensures
            hits == chain_hits(
                self@,
                self.order() as nat,
                tokens.deep_view(),
                queries.deep_view(),
                count as nat,
            ),
    {
        let order = self.order_of();
        let ghost all = tokens.deep_view();
        let ghost asked = queries.deep_view();
        let mut hits: u128 = 0;
        let mut i: usize = 0;
        while i < count
            invariant
                i <= count,
                count == 0 || count - 1 + order <= tokens.len(),
                order == self.order(),
                all == tokens.deep_view(),
                asked == queries.deep_view(),
                hits == chain_hits(self@, order as nat, all, asked, i as nat),
            decreases count - i,
        {
            let window = slice_subrange(tokens, i, i + order);
            assert(window.deep_view() =~= window_at(all, order as nat, i as int));
            let found: usize = match self.followers(window) {
                Some(list) => {
                    let followers = list.as_slice();
                    assert(followers.deep_view() =~= list.deep_view());
                    count_members(queries, followers)
                },
                None => {
                    proof {
                        lemma_filter_none(asked, member_of(Seq::<Seq<char>>::empty()));
                    }
                    0
                },
            };
            proof {
                lemma_chain_hits_bound(self@, order as nat, all, asked, (i + 1) as nat);
                assert(asked.len() == queries.len());
                assert((i + 1) * asked.len() <= 0xFFFF_FFFF_FFFF_FFFF * 0xFFFF_FFFF_FFFF_FFFF)
                    by (nonlinear_arith)
                    requires
                        0 <= i + 1 <= 0xFFFF_FFFF_FFFF_FFFF,
                        0 <= asked.len() <= 0xFFFF_FFFF_FFFF_FFFF,
                ;
            }
            hits = hits + found as u128;
            i = i + 1;
        }
        hits
    }

    /// The importance of a text given as its lowercase words: how many of
    /// them are keywords, and, over every window of the text, how many
    /// keywords are among the followers of the window; this sum stands over
    /// the number of words.
    pub fn importance_of_words(
        &self,
        tokens: &[String],
        keywords: &[String],
    ) -> (importance: Importance)
        ensures
            importance.keyword_count == keyword_count(tokens.deep_view(), keywords.deep_view()),
            importance.score@.hits == importance_hits(
                self@,
                self.order() as nat,
                tokens.deep_view(),
                keywords.deep_view(),
            ),
            importance.score@.words == tokens.len(),
    {
        let order = self.order_of();
        let keyword_count = count_members(tokens, keywords);
        let count: usize = if order == 0 {
            tokens.len()
        } else if tokens.len() >= order {
            tokens.len() - order + 1
        } else {
            0
        };
        let hits = self.count_chain_hits(tokens, keywords, count);
        Importance { keyword_count, score: Score { hits, words: tokens.len() } }
    }

    /// The importance of `text` for `keywords`, over the lowercase words of
    /// the text: every window counts, the last one too.
    pub fn analyze_importance(&self, text: &str, keywords: &[String]) -> (importance: Importance)
        ensures
            importance.keyword_count == keyword_count(lowered(words(text@)), keywords.deep_view()),
            importance.score@.hits == importance_hits(
                self@,
                self.order() as nat,
                lowered(words(text@)),
                keywords.deep_view(),
            ),
            importance.score@.words == words(text@).len(),
    {
        let tokens = lowercase_words(text);
        let slice = tokens.as_slice();
        assert(slice.deep_view() =~= tokens.deep_view());
        self.importance_of_words(slice, keywords)
    }

    /// Counts the words of `text` that are positive and those that are
    /// negative: `"positive"` where the first are more, `"negative"` where
    /// the second are more, otherwise `"neutral"`.
    pub fn analyze_sentiment(&self, text: &str) -> (label: String)
        ensures
            label@ == sentiment_of(text@),
    {
        let lexicons = self.lexicons();
        let tokens = split_whitespace(text);
        let positive = count_members(tokens.as_slice(), lexicons.positive.as_slice());
        let negative = count_members(tokens.as_slice(), lexicons.negative.as_slice());
        if positive > negative {
            "positive".to_owned()
        } else if negative > positive {
            "negative".to_owned()
        } else {
            "neutral".to_owned()
        }
    }

    /// The category names that occur in the lowercase form of `text`,
    /// anywhere in it and not only as whole words.
    pub fn analyze_categories(&self, text: &str) -> (found: Vec<String>)
        ensures
            found.deep_view() == categories_of(text@),
    {
        let lexicons = self.lexicons();
        let hay = text.to_lowercase();
        let names = lexicons.categories.as_slice();
        proof {
            assert(names.deep_view() =~= category_names());
            assert(category_names().map_values(as_it_is()) =~= category_names());
            lemma_selected_filters(category_names(), as_it_is(), hay@);
        }
        select_present(names, names, hay.as_str())
    }

    /// The first five words of `text` that have more than three characters,
    /// as they stand and with their repetitions.
    pub fn extract_keywords(&self, text: &str) -> (keywords: Vec<String>)
        ensures
            keywords.deep_view() == keywords_of(text@),
    {
        let tokens = split_whitespace(text);
        let ghost all = tokens.deep_view();
        let ghost keep = longer_than(3);
        let mut keywords: Vec<String> = Vec::new();
        let mut i: usize = 0;
        assert(all.take(0).filter(keep) =~= Seq::empty()) by {
            reveal(Seq::filter);
        }
        while i < tokens.len() && keywords.len() < 5
            invariant
                i <= tokens.len(),
                all == tokens.deep_view(),
                keep == longer_than(3),
                keywords.len() <= 5,
                keywords.deep_view() == all.take(i as int).filter(keep),
            decreases tokens.len() - i,
        {
            proof {
                lemma_filter_next(all, keep, i as int);
            }
            let ghost before = keywords.deep_view();
            if tokens[i].as_str().unicode_len() > 3 {
                keywords.push(tokens[i].clone());
                assert(keywords.deep_view() =~= before.push(all[i as int]));
            }
            i = i + 1;
        }
        proof {
            let seen = all.take(i as int);
            let rest = all.skip(i as int);
            assert(seen + rest =~= all);
            Seq::filter_distributes_over_add(seen, rest, keep);
            let long = all.filter(keep);
            assert(long == seen.filter(keep) + rest.filter(keep));
            if i == tokens.len() {
                assert(rest.filter(keep) =~= Seq::empty()) by {
                    reveal(Seq::filter);
                }
                assert(long =~= seen.filter(keep));
            } else {
                assert(long.take(5) =~= seen.filter(keep));
            }
        }
        keywords
    }

    /// The tag names whose lowercase form occurs in the lowercase form of
    /// `text`.
    pub fn suggest_tags(&self, text: &str) -> (tags: Vec<String>)
        ensures
            tags.deep_view() == tags_of(text@),
    {
        let lexicons = self.lexicons();
        let hay = text.to_lowercase();
        let mut needles: Vec<String> = Vec::new();
        let mut i: usize = 0;
        while i < lexicons.tags.len()
            invariant
                i <= lexicons.tags.len(),
                needles.len() == i,
                forall|k: int| 0 <= k < i ==> needles@[k]@ == lowercase(lexicons.tags@[k]@),
            decreases lexicons.tags.len() - i,
        {
            needles.push(lexicons.tags[i].as_str().to_lowercase());
            i = i + 1;
        }
        let names = lexicons.tags.as_slice();
        let lowered_names = needles.as_slice();
        proof {
            assert(names.deep_view() =~= tag_names());
            assert(lowered_names.deep_view() =~= tag_names().map_values(in_lowercase()));
            lemma_selected_filters(tag_names(), in_lowercase(), hay@);
        }
        select_present(names, lowered_names, hay.as_str())
    }

    /// Everything the analyzers say of `text`: its sentiment, categories,
    /// keywords and suggested tags, and its importance for those keywords.
    pub fn analyze_content(&self, text: &str) -> (analysis: ContentAnalysis)
        ensures
            analysis.sentiment@ == sentiment_of(text@),
            analysis.category.deep_view() == categories_of(text@),
            analysis.keywords.deep_view() == keywords_of(text@),
            analysis.suggested_tags.deep_view() == tags_of(text@),
            analysis.importance.keyword_count == keyword_count(
                lowered(words(text@)),
                keywords_of(text@),
            ),
            analysis.importance.score@.hits == importance_hits(
                self@,
                self.order() as nat,
                lowered(words(text@)),
                keywords_of(text@),
            ),
            analysis.importance.score@.words == words(text@).len(),
    {
        let sentiment = self.analyze_sentiment(text);
        let category = self.analyze_categories(text);
        let keywords = self.extract_keywords(text);
        let chosen = keywords.as_slice();
        assert(chosen.deep_view() =~= keywords.deep_view());
        let importance = self.analyze_importance(text, chosen);
        let suggested_tags = self.suggest_tags(text);
        ContentAnalysis { sentiment, category, keywords, importance, suggested_tags }
    }
}

} // verus!
