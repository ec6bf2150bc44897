//! Search over notes: relevance by the chain, literal matches, ranking and
//! suggested filters.

use crate::analysis::{chain_hits, lemma_filter_next, lowercase_words, lowered, member_of};
use crate::analysis::{contains_word, lemma_no_follower_no_hit};
use crate::index::{followers_in, Words};
use crate::markov::{full_windows, window_at, MarkovChain};
use crate::dates::{date_reading, read_date};
use crate::models::{match_views, note_views, or_empty, text_of, MatchView, NoteRecord, NoteView};
use crate::models::{DateRange, QueryAnalysis, QueryKind, SearchResult, SemanticMatch};
use crate::models::SuggestedFilters;
use crate::score::{lemma_not_above_chain, Ratio, Score};
use crate::text::words;
use vstd::prelude::*;

verus! {

/// The relevance of a note for a query, both given as words: over all
/// windows of the note, how many query words are among the followers of the
/// window, and this sum over the number of the note's words.
pub open spec fn relevance(
    index: Map<Words, Words>,
    order: nat,
    query: Words,
    note: Words,
) -> Ratio {
    Ratio {
        hits: chain_hits(index, order, note, query, full_windows(note.len(), order)),
        words: note.len(),
    }
}

/// Whether no word of `query` is among the followers of any window of
/// `note`.
pub open spec fn unrelated(
    index: Map<Words, Words>,
    order: nat,
    query: Words,
    note: Words,
) -> bool {
    forall|at: int, q: int|
        0 <= at < full_windows(note.len(), order) && 0 <= q < query.len() ==> !followers_in(
            index,
            #[trigger] window_at(note, order, at),
        ).contains(#[trigger] query[q])
}

/// What a search finds out about one note: its id, its relevance for the
/// query and the query words that stand in it.
pub open spec fn assess(
    index: Map<Words, Words>,
    order: nat,
    query: Words,
    note: NoteView,
) -> MatchView {
    let note_words = lowered(words(or_empty(note.content)));
    MatchView {
        note_id: or_empty(note.id),
        relevance: relevance(index, order, query, note_words),
        matched_terms: query.filter(member_of(note_words)),
    }
}

/// The test that keeps a match: a relevance strictly above three tenths.
pub open spec fn is_kept() -> spec_fn(MatchView) -> bool {
    |found: MatchView| found.relevance.is_relevant()
}

/// `ranking` with `found` put in behind the last match that it does not
/// outrank.
pub open spec fn placed(ranking: Seq<MatchView>, found: MatchView) -> Seq<MatchView>
    decreases ranking.len(),
{
    if ranking.len() > 0 && found.relevance.above(ranking.last().relevance) {
        placed(ranking.drop_last(), found).push(ranking.last())
    } else {
        ranking.push(found)
    }
}

/// `matches` by descending relevance, equals in their first order: each
/// match in turn is placed into the ranking of those before it.
pub open spec fn ranked(matches: Seq<MatchView>) -> Seq<MatchView>
    decreases matches.len(),
{
    if matches.len() == 0 {
        matches
    } else {
        placed(ranked(matches.drop_last()), matches.last())
    }
}

/// What a search for `query` over `notes` returns.
pub open spec fn search_matches(
    index: Map<Words, Words>,
    order: nat,
    query: Seq<char>,
    notes: Seq<NoteView>,
) -> Seq<MatchView> {
    let asked = lowered(words(query));
    ranked(notes.map_values(|note: NoteView| assess(index, order, asked, note)).filter(is_kept()))
}

/// A field of a note that a filter is drawn from.
#[derive(Clone, Copy, Debug, PartialEq, Eq, Structural)]
pub enum FilterField {
    Category,
    Priority,
    Date,
}

/// The text that `note` has in `field`, if any.
pub open spec fn field_text(note: NoteView, field: FilterField) -> Option<Seq<char>> {
    match field {
        FilterField::Category => note.category,
        FilterField::Priority => note.priority,
        FilterField::Date => note.date,
    }
}

/// The texts that the first `count` notes have in `field`, in the order of
/// the notes.
pub open spec fn field_values(notes: Seq<NoteView>, field: FilterField, count: nat) -> Words
    decreases count,
{
    if count == 0 {
        Seq::empty()
    } else {
        let earlier = field_values(notes, field, (count - 1) as nat);
        match field_text(notes[count - 1], field) {
            Some(text) => earlier.push(text),
            None => earlier,
        }
    }
}

/// The first of `values`; the empty text where there is none.
pub open spec fn first_or_empty(values: Words) -> Seq<char> {
    if values.len() > 0 {
        values.first()
    } else {
        Seq::empty()
    }
}

/// The last of `values`; the empty text where there is none.
pub open spec fn last_or_empty(values: Words) -> Seq<char> {
    if values.len() > 0 {
        values.last()
    } else {
        Seq::empty()
    }
}

/// The pattern of a date in a query: day, month and year, with slashes.
pub open spec fn date_pattern() -> Seq<char> {
    "%d/%m/%Y"@
}

/// The texts that `notes` have in `field`, in the order of the notes.
pub fn collect_field(notes: &[NoteRecord], field: FilterField) -> (values: Vec<String>)
    ensures
        values.deep_view() == field_values(note_views(notes@), field, notes.len() as nat),
{
    let ghost views = note_views(notes@);
    let mut values: Vec<String> = Vec::new();
    let mut i: usize = 0;
    assert(values.deep_view() =~= field_values(views, field, 0));
    while i < notes.len()
        invariant
            i <= notes.len(),
            views == note_views(notes@),
            values.deep_view() == field_values(views, field, i as nat),
        decreases notes.len() - i,
    {
        let note = &notes[i];
        assert(views[i as int] == note@);
        let text = match field {
            FilterField::Category => &note.category,
            FilterField::Priority => &note.priority,
            FilterField::Date => &note.date,
        };
        assert(text_of(*text) == field_text(note@, field));
        let ghost before = values.deep_view();
        match text {
            Some(present) => {
                values.push(present.clone());
                assert(values.deep_view() =~= before.push(present@));
            },
            None => {},
        }
        i = i + 1;
    }
    values
}

/// The analysis of `query` once it was read as a date: for a date its
/// normal form, otherwise the query as it stands.
pub fn classify_query(query: &str, date: Option<String>) -> (analysis: QueryAnalysis)
    ensures
        match date {
            Some(day) => analysis.kind == QueryKind::Date && analysis.value@ == day@,
            None => analysis.kind == QueryKind::Text && analysis.value@ == query@,
        },
{
    match date {
        Some(day) => QueryAnalysis { kind: QueryKind::Date, value: day },
        None => QueryAnalysis { kind: QueryKind::Text, value: query.to_owned() },
    }
}

/// Placing a match inserts it at the place that has only outranked matches
/// behind it and none of them right before it.
pub proof fn lemma_placed_inserts(ranking: Seq<MatchView>, found: MatchView, at: int)
    requires
        0 <= at <= ranking.len(),
        forall|k: int| at <= k < ranking.len() ==> found.relevance.above(#[trigger] ranking[k].relevance),
        at == 0 || !found.relevance.above(ranking[at - 1].relevance),
    ensures
        placed(ranking, found) == ranking.insert(at, found),
    decreases ranking.len() - at,
{
    if at == ranking.len() {
        assert(ranking.push(found) =~= ranking.insert(at, found));
    } else {
        let shorter = ranking.drop_last();
        assert(found.relevance.above(ranking[ranking.len() - 1].relevance));
        assert forall|k: int| at <= k < shorter.len() implies found.relevance.above(
            #[trigger] shorter[k].relevance,
        ) by {
            assert(shorter[k] == ranking[k]);
        }
        lemma_placed_inserts(shorter, found, at);
        assert(shorter.insert(at, found).push(ranking.last()) =~= ranking.insert(at, found));
    }
}

/// Every match of a ranking is one of the matches that were ranked.
pub proof fn lemma_ranked_keeps_members(matches: Seq<MatchView>)
    ensures
        ranked(matches).len() == matches.len(),
        forall|k: int| 0 <= k < matches.len() ==> matches.contains(#[trigger] ranked(matches)[k]),
        ranked(matches).to_multiset() == matches.to_multiset(),
    decreases matches.len(),
{
    if matches.len() > 0 {
        let earlier = matches.drop_last();
        let last = matches.last();
        lemma_ranked_keeps_members(earlier);
        lemma_placed_adds(ranked(earlier), last);
        assert(matches =~= earlier.push(last));
        broadcast use vstd::seq_lib::group_to_multiset_ensures;
        assert forall|k: int| 0 <= k < matches.len() implies matches.contains(
            #[trigger] ranked(matches)[k],
        ) by {
            let found = ranked(matches)[k];
            assert(ranked(matches).contains(found));
            assert(ranked(matches).to_multiset().count(found) > 0);
            assert(matches.to_multiset().count(found) > 0);
        }
    }
}

/// Placing a match adds it to the ranking and changes nothing else.
pub proof fn lemma_placed_adds(ranking: Seq<MatchView>, found: MatchView)
    ensures
        placed(ranking, found).len() == ranking.len() + 1,
        placed(ranking, found).to_multiset() == ranking.to_multiset().insert(found),
    decreases ranking.len(),
{
    broadcast use vstd::seq_lib::group_to_multiset_ensures;
    if ranking.len() > 0 && found.relevance.above(ranking.last().relevance) {
        let shorter = ranking.drop_last();
        lemma_placed_adds(shorter, found);
        assert(ranking =~= shorter.push(ranking.last()));
        assert(placed(ranking, found).to_multiset() =~= ranking.to_multiset().insert(found));
    }
}

/// Whether no match of `ranking` is above one that stands before it.
pub open spec fn descends(ranking: Seq<MatchView>) -> bool {
    forall|i: int, j: int|
        0 <= i < j < ranking.len() ==> !ranking[j].relevance.above(ranking[i].relevance)
}

/// Whether every match of `matches` has a relevance over at least one word.
pub open spec fn over_words(matches: Seq<MatchView>) -> bool {
    forall|i: int| 0 <= i < matches.len() ==> (#[trigger] matches[i]).relevance.words > 0
}

/// The test for a relevance that is neither above nor below `level`.
pub open spec fn ties_with(level: Ratio) -> spec_fn(MatchView) -> bool {
    |found: MatchView| !found.relevance.above(level) && !level.above(found.relevance)
}

/// The place that `found` takes in `ranking`: behind the last match that it
/// does not outrank.
pub open spec fn place_of(ranking: Seq<MatchView>, found: MatchView) -> int
    decreases ranking.len(),
{
    if ranking.len() > 0 && found.relevance.above(ranking.last().relevance) {
        place_of(ranking.drop_last(), found)
    } else {
        ranking.len() as int
    }
}

/// `placed` inserts at `place_of`, which has only outranked matches behind
/// it and none of them right before it.
pub proof fn lemma_place_of(ranking: Seq<MatchView>, found: MatchView)
    ensures
        0 <= place_of(ranking, found) <= ranking.len(),
        forall|k: int|
            place_of(ranking, found) <= k < ranking.len() ==> found.relevance.above(
                #[trigger] ranking[k].relevance,
            ),
        place_of(ranking, found) == 0 || !found.relevance.above(
            ranking[place_of(ranking, found) - 1].relevance,
        ),
        placed(ranking, found) == ranking.insert(place_of(ranking, found), found),
    decreases ranking.len(),
{
    if ranking.len() > 0 && found.relevance.above(ranking.last().relevance) {
        let shorter = ranking.drop_last();
        lemma_place_of(shorter, found);
        let at = place_of(shorter, found);
        assert forall|k: int| at <= k < ranking.len() implies found.relevance.above(
            #[trigger] ranking[k].relevance,
        ) by {
            if k < shorter.len() {
                assert(ranking[k] == shorter[k]);
            }
        }
        if at > 0 {
            assert(ranking[at - 1] == shorter[at - 1]);
        }
    }
    lemma_placed_inserts(ranking, found, place_of(ranking, found));
}

/// Placing a match into a descending ranking leaves it descending.
pub proof fn lemma_placed_descends(ranking: Seq<MatchView>, found: MatchView)
    requires
        descends(ranking),
        over_words(ranking),
        found.relevance.words > 0,
    ensures
        descends(placed(ranking, found)),
        over_words(placed(ranking, found)),
{
    lemma_place_of(ranking, found);
    let at = place_of(ranking, found);
    let after = placed(ranking, found);
    assert forall|i: int, j: int| 0 <= i < j < after.len() implies !after[j].relevance.above(
        after[i].relevance,
    ) by {
        if j == at {
            assert(after[i] == ranking[i]);
            if i < at - 1 {
                lemma_not_above_chain(
                    ranking[i].relevance,
                    ranking[at - 1].relevance,
                    found.relevance,
                );
            }
        } else if i == at {
            assert(after[j] == ranking[j - 1]);
            assert(found.relevance.above(ranking[j - 1].relevance));
        } else {
            let a = if i < at { i } else { i - 1 };
            let b = if j < at { j } else { j - 1 };
            assert(after[i] == ranking[a] && after[j] == ranking[b]);
        }
    }
    assert forall|i: int| 0 <= i < after.len() implies (#[trigger] after[i]).relevance.words
        > 0 by {
        if i < at {
            assert(after[i] == ranking[i]);
        } else if i > at {
            assert(after[i] == ranking[i - 1]);
        }
    }
}

/// A ranking descends: no match is above one that stands before it.
pub proof fn lemma_ranked_descends(matches: Seq<MatchView>)
    requires
        over_words(matches),
    ensures
        descends(ranked(matches)),
        over_words(ranked(matches)),
    decreases matches.len(),
{
    if matches.len() > 0 {
        let earlier = matches.drop_last();
        assert forall|i: int| 0 <= i < earlier.len() implies (#[trigger] earlier[i]).relevance.words
            > 0 by {
            assert(earlier[i] == matches[i]);
        }
        lemma_ranked_descends(earlier);
        lemma_placed_descends(ranked(earlier), matches.last());
    }
}

/// A ranking is stable: the matches that tie with a level stand in it in
/// the order in which they were given.
pub proof fn lemma_ranked_stable(matches: Seq<MatchView>, level: Ratio)
    requires
        over_words(matches),
        level.words > 0,
    ensures
        ranked(matches).filter(ties_with(level)) == matches.filter(ties_with(level)),
    decreases matches.len(),
{
    let keep = ties_with(level);
    if matches.len() == 0 {
    } else {
        let earlier = matches.drop_last();
        let found = matches.last();
        assert forall|i: int| 0 <= i < earlier.len() implies (#[trigger] earlier[i]).relevance.words
            > 0 by {
            assert(earlier[i] == matches[i]);
        }
        lemma_ranked_stable(earlier, level);
        lemma_ranked_descends(earlier);
        let ranking = ranked(earlier);
        lemma_place_of(ranking, found);
        let at = place_of(ranking, found);
        let head = ranking.take(at);
        let tail = ranking.skip(at);
        assert(ranking =~= head + tail);
        assert(ranking.insert(at, found) =~= head.push(found) + tail);
        assert(matches =~= earlier.push(found));
        Seq::filter_distributes_over_add(head, tail, keep);
        Seq::filter_distributes_over_add(head.push(found), tail, keep);
        assert(head.push(found).take(at) =~= head);
        lemma_filter_next(head.push(found), keep, at);
        assert(head.push(found).take(at + 1) =~= head.push(found));
        assert(earlier.push(found).take(earlier.len() as int) =~= earlier);
        lemma_filter_next(earlier.push(found), keep, earlier.len() as int);
        assert(earlier.push(found).take(earlier.len() as int + 1) =~= earlier.push(found));
        if keep(found) {
            assert forall|k: int| 0 <= k < tail.len() implies !keep(#[trigger] tail[k]) by {
                assert(tail[k] == ranking[at + k]);
                assert(found.relevance.above(ranking[at + k].relevance));
                if keep(tail[k]) {
                    lemma_not_above_chain(tail[k].relevance, level, found.relevance);
                }
            }
            crate::analysis::lemma_filter_none(tail, keep);
            assert(tail.filter(keep) =~= Seq::empty());
            assert(head.filter(keep) + tail.filter(keep) =~= head.filter(keep));
            assert(head.filter(keep).push(found) + tail.filter(keep) =~= head.filter(keep).push(
                found,
            ));
        }
    }
}

/// A note that is kept has at least one word.
pub proof fn lemma_kept_over_words(
    index: Map<Words, Words>,
    order: nat,
    query: Words,
    note: NoteView,
)
    requires
        order > 0,
        assess(index, order, query, note).relevance.is_relevant(),
    ensures
        assess(index, order, query, note).relevance.words > 0,
{
    let note_words = lowered(words(or_empty(note.content)));
    if note_words.len() == 0 {
        assert(full_windows(0, order) == 0);
    }
}

/// What a search returns descends by relevance, holds only notes with a
/// relevance strictly above three tenths, and keeps the notes that tie in
/// the order in which they were given.
pub proof fn lemma_search_matches_ranked(
    index: Map<Words, Words>,
    order: nat,
    query: Seq<char>,
    notes: Seq<NoteView>,
    level: Ratio,
)
    requires
        order > 0,
        level.words > 0,
    ensures
        descends(search_matches(index, order, query, notes)),
        forall|i: int|
            0 <= i < search_matches(index, order, query, notes).len() ==> (#[trigger] search_matches(
                index,
                order,
                query,
                notes,
            )[i]).relevance.is_relevant(),
        search_matches(index, order, query, notes).filter(ties_with(level)) == notes.map_values(
            |note: NoteView| assess(index, order, lowered(words(query)), note),
        ).filter(is_kept()).filter(ties_with(level)),
{
    let asked = lowered(words(query));
    let all = notes.map_values(|note: NoteView| assess(index, order, asked, note));
    let kept = all.filter(is_kept());
    broadcast use vstd::seq_lib::group_filter_ensures;
    lemma_kept_members(all);
    assert forall|i: int| 0 <= i < kept.len() implies (#[trigger] kept[i]).relevance.words > 0 by {
        assert(is_kept()(kept[i]));
        let k = choose|k: int| 0 <= k < all.len() && all[k] == kept[i];
        lemma_kept_over_words(index, order, asked, notes[k]);
    }
    lemma_ranked_descends(kept);
    lemma_ranked_stable(kept, level);
    lemma_ranked_keeps_members(kept);
    assert forall|i: int| 0 <= i < ranked(kept).len() implies (#[trigger] ranked(
        kept,
    )[i]).relevance.is_relevant() by {
        assert(kept.contains(ranked(kept)[i]));
    }
}

/// Every match that passes the test for keeping is one of the matches
/// tested.
pub proof fn lemma_kept_members(all: Seq<MatchView>)
    ensures
        forall|i: int|
            0 <= i < all.filter(is_kept()).len() ==> all.contains(#[trigger] all.filter(is_kept())[i]),
    decreases all.len(),
{
    reveal(Seq::filter);
    if all.len() > 0 {
        let earlier = all.drop_last();
        lemma_kept_members(earlier);
        let kept = all.filter(is_kept());
        assert forall|i: int| 0 <= i < kept.len() implies all.contains(#[trigger] kept[i]) by {
            if i < earlier.filter(is_kept()).len() {
                assert(earlier.contains(earlier.filter(is_kept())[i]));
                let k = choose|k: int| 0 <= k < earlier.len() && earlier[k] == earlier.filter(is_kept())[i];
                assert(all[k] == kept[i]);
            } else {
                assert(all[all.len() - 1] == kept[i]);
            }
        }
    }
}

/// Puts `found` into `ranking` behind the last match that it does not
/// outrank.
pub fn place_match(ranking: &mut Vec<SemanticMatch>, found: SemanticMatch)
    ensures
        match_views(final(ranking)@) == placed(match_views(old(ranking)@), found@),
{
    let ghost before = match_views(ranking@);
    let mut at: usize = ranking.len();
    let mut searching = true;
    while searching && at > 0
        invariant
            at <= ranking.len(),
            before == match_views(ranking@),
            forall|k: int| at <= k < before.len() ==> found@.relevance.above(#[trigger] before[k].relevance),
            !searching ==> at > 0 && !found@.relevance.above(before[at - 1].relevance),
        decreases at + if searching { 1nat } else { 0nat },
    {
        if found.relevance.outranks(&ranking[at - 1].relevance) {
            at = at - 1;
        } else {
            searching = false;
        }
    }
    proof {
        lemma_placed_inserts(before, found@, at as int);
    }
    ranking.insert(at, found);
    assert(match_views(ranking@) =~= before.insert(at as int, found@));
}

impl MarkovChain {
    /// The query words that stand in the note as they are, in the order of
    /// the query.
    pub fn find_matched_terms(
        &self,
        query_words: &[String],
        note_words: &[String],
    ) -> (terms: Vec<String>)
        ensures
            terms.deep_view() == query_words.deep_view().filter(member_of(note_words.deep_view())),
    {
        let ghost asked = query_words.deep_view();
        let ghost keep = member_of(note_words.deep_view());
        let mut terms: Vec<String> = Vec::new();
        let mut i: usize = 0;
        assert(asked.take(0).filter(keep) =~= Seq::empty()) by {
            reveal(Seq::filter);
        }
        while i < query_words.len()
            invariant
                i <= query_words.len(),
                asked == query_words.deep_view(),
                keep == member_of(note_words.deep_view()),
                terms.deep_view() == asked.take(i as int).filter(keep),
            decreases query_words.len() - i,
        {
            proof {
                lemma_filter_next(asked, keep, i as int);
            }
            let ghost before = terms.deep_view();
            if contains_word(note_words, &query_words[i]) {
                terms.push(query_words[i].clone());
                assert(terms.deep_view() =~= before.push(asked[i as int]));
            }
            i = i + 1;
        }
        assert(asked.take(query_words.len() as int) =~= asked);
        terms
    }

    /// The relevance of a note for a query: for every window of the note
    /// that is a key, each query word among its followers counts once; the
    /// sum stands over the number of the note's words, and may be more than
    /// they are. A window must hold at least one word.
    pub fn calculate_semantic_relevance(
        &self,
        query_words: &[String],
        note_words: &[String],
    ) -> (score: Score)
        requires
            self.order() > 0,
        ensures
            score@ == relevance(
                self@,
                self.order() as nat,
                query_words.deep_view(),
                note_words.deep_view(),
            ),
            unrelated(self@, self.order() as nat, query_words.deep_view(), note_words.deep_view())
                ==> score.hits == 0,
    {
        proof {
            if unrelated(
                self@,
                self.order() as nat,
                query_words.deep_view(),
                note_words.deep_view(),
            ) {
                lemma_no_follower_no_hit(
                    self@,
                    self.order() as nat,
                    note_words.deep_view(),
                    query_words.deep_view(),
                    full_windows(note_words.deep_view().len(), self.order() as nat),
                );
            }
        }
        let order = self.order_of();
        let count: usize = if note_words.len() >= order {
            note_words.len() - order + 1
        } else {
            0
        };
        let hits = self.count_chain_hits(note_words, query_words, count);
        Score { hits, words: note_words.len() }
    }

    /// Assesses every note for the lowercase words of `query`, keeps those
    /// with a relevance strictly above three tenths, and returns them by
    /// descending relevance, equals in the order of `notes`. Where there is
    /// a note to assess, a window must hold at least one word.
    pub fn _find_semantic_matches(
        &self,
        query: &str,
        notes: &[NoteRecord],
    ) -> (matches: Vec<SemanticMatch>)
        requires
            notes.len() > 0 ==> self.order() > 0,
        ensures
            match_views(matches@) == search_matches(
                self@,
                self.order() as nat,
                query@,
                note_views(notes@),
            ),
            forall|i: int| 0 <= i < matches.len() ==> (#[trigger] matches@[i])@.relevance.is_relevant(),
            descends(match_views(matches@)),
    {
        let ghost order = self.order() as nat;
        let ghost asked = lowered(words(query@));
        let ghost views = note_views(notes@);
        let ghost all = views.map_values(|note: NoteView| assess(self@, order, asked, note));
        let query_words = lowercase_words(query);
        let mut matches: Vec<SemanticMatch> = Vec::new();
        let mut i: usize = 0;
        proof {
            assert(all.take(0).filter(is_kept()) =~= Seq::empty()) by {
                reveal(Seq::filter);
            }
            assert(match_views(matches@) =~= ranked(all.take(0).filter(is_kept())));
        }
        while i < notes.len()
            invariant
                i <= notes.len(),
                notes.len() > 0 ==> self.order() > 0,
                order == self.order(),
                asked == lowered(words(query@)),
                query_words.deep_view() == asked,
                views == note_views(notes@),
                all == views.map_values(|note: NoteView| assess(self@, order, asked, note)),
                match_views(matches@) == ranked(all.take(i as int).filter(is_kept())),
            decreases notes.len() - i,
        {
            let note = &notes[i];
            let content: &str = match &note.content {
                Some(text) => text.as_str(),
                None => "",
            };
            let note_words = lowercase_words(content);
            let asked_slice = query_words.as_slice();
            let note_slice = note_words.as_slice();
            let relevance = self.calculate_semantic_relevance(asked_slice, note_slice);
            proof {
                reveal_strlit("");
                assert(content@ =~= or_empty(note@.content));
                assert(asked_slice.deep_view() =~= asked);
                assert(note_slice.deep_view() =~= note_words.deep_view());
                assert(views[i as int] == note@);
                assert(all[i as int] == assess(self@, order, asked, note@));
                assert(relevance@ == all[i as int].relevance);
                lemma_filter_next(all, is_kept(), i as int);
            }
            if relevance.exceeds_threshold() {
                let note_id = match &note.id {
                    Some(id) => id.clone(),
                    None => String::new(),
                };
                let matched_terms = self.find_matched_terms(asked_slice, note_slice);
                let found = SemanticMatch { note_id, relevance, matched_terms };
                assert(found@ == all[i as int]);
                proof {
                    let kept = all.take(i as int).filter(is_kept());
                    assert(kept.push(found@).drop_last() =~= kept);
                }
                place_match(&mut matches, found);
            }
            i = i + 1;
        }
        proof {
            assert(all.take(notes.len() as int) =~= all);
            if notes.len() > 0 {
                lemma_search_matches_ranked(
                    self@,
                    order,
                    query@,
                    views,
                    Ratio { hits: 0, words: 1 },
                );
            }
            assert forall|k: int| 0 <= k < matches.len() implies (
            #[trigger] matches@[k])@.relevance.is_relevant() by {
                assert(match_views(matches@)[k] == matches@[k]@);
            }
        }
        matches
    }

    /// The categories and the priorities that `notes` have, in their order,
    /// and the range from the first date among them to the last: first and
    /// last by place, not by the calendar. Without dates both ends are
    /// empty.
    pub fn suggest_filters(&self, _query: &str, notes: &[NoteRecord]) -> (filters: SuggestedFilters)
        ensures
            filters.category is Some,
            filters.category.unwrap().deep_view() == field_values(
                note_views(notes@),
                FilterField::Category,
                notes.len() as nat,
            ),
            filters.priority is Some,
            filters.priority.unwrap().deep_view() == field_values(
                note_views(notes@),
                FilterField::Priority,
                notes.len() as nat,
            ),
            filters.date_range is Some,
            filters.date_range.unwrap().start@ == first_or_empty(
                field_values(note_views(notes@), FilterField::Date, notes.len() as nat),
            ),
            filters.date_range.unwrap().end@ == last_or_empty(
                field_values(note_views(notes@), FilterField::Date, notes.len() as nat),
            ),
    {
        let categories = collect_field(notes, FilterField::Category);
        let priorities = collect_field(notes, FilterField::Priority);
        let dates = collect_field(notes, FilterField::Date);
        let (start, end) = if dates.len() > 0 {
            (dates[0].clone(), dates[dates.len() - 1].clone())
        } else {
            (String::new(), String::new())
        };
        SuggestedFilters {
            category: Some(categories),
            priority: Some(priorities),
            date_range: Some(DateRange { start, end }),
        }
    }

    /// The matches for `query` among `notes`, best first, with the filters
    /// that the notes suggest. Where there is a note to assess, a window
    /// must hold at least one word.
    pub fn semantic_search(&self, query: &str, notes: &[NoteRecord]) -> (result: SearchResult)
        requires
            notes.len() > 0 ==> self.order() > 0,
        ensures
            match_views(result.semantic_matches@) == search_matches(
                self@,
                self.order() as nat,
                query@,
                note_views(notes@),
            ),
            forall|i: int|
                0 <= i < result.semantic_matches.len() ==> (
                #[trigger] result.semantic_matches@[i])@.relevance.is_relevant(),
            descends(match_views(result.semantic_matches@)),
            result.suggested_filters.category is Some,
            result.suggested_filters.category.unwrap().deep_view() == field_values(
                note_views(notes@),
                FilterField::Category,
                notes.len() as nat,
            ),
            result.suggested_filters.priority is Some,
            result.suggested_filters.priority.unwrap().deep_view() == field_values(
                note_views(notes@),
                FilterField::Priority,
                notes.len() as nat,
            ),
            result.suggested_filters.date_range is Some,
            result.suggested_filters.date_range.unwrap().start@ == first_or_empty(
                field_values(note_views(notes@), FilterField::Date, notes.len() as nat),
            ),
            result.suggested_filters.date_range.unwrap().end@ == last_or_empty(
                field_values(note_views(notes@), FilterField::Date, notes.len() as nat),
            ),
    {
        let semantic_matches = self._find_semantic_matches(query, notes);
        let suggested_filters = self.suggest_filters(query, notes);
        SearchResult { semantic_matches, suggested_filters }
    }

    /// Reads `query` as a date of day, month and year: where it is one, the
    /// analysis is a date with its normal form, else a text with the query.
    pub fn analyze_query(&self, query: &str) -> (analysis: QueryAnalysis)
        ensures
            match date_reading(query@, date_pattern()) {
                Some(day) => analysis.kind == QueryKind::Date && analysis.value@ == day,
                None => analysis.kind == QueryKind::Text && analysis.value@ == query@,
            },
    {
        let date = read_date(query, "%d/%m/%Y");
        classify_query(query, date)
    }
}

} // verus!
