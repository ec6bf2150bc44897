use markov_notes::markov::MarkovChain;
use markov_notes::models::{NoteRecord, QueryKind, SemanticMatch};
use markov_notes::score::Score;
use markov_notes::search::{classify_query, collect_field, place_match, FilterField};

fn words(list: &[&str]) -> Vec<String> {
    list.iter().map(|w| w.to_string()).collect()
}

fn note(id: &str, content: &str) -> NoteRecord {
    NoteRecord {
        id: Some(id.to_string()),
        content: Some(content.to_string()),
        category: None,
        priority: None,
        date: None,
    }
}

fn filed(category: Option<&str>, priority: Option<&str>, date: Option<&str>) -> NoteRecord {
    NoteRecord {
        id: None,
        content: None,
        category: category.map(|t| t.to_string()),
        priority: priority.map(|t| t.to_string()),
        date: date.map(|t| t.to_string()),
    }
}

fn ids(matches: &[SemanticMatch]) -> Vec<String> {
    matches.iter().map(|m| m.note_id.clone()).collect()
}

fn found(id: &str, hits: u128, count: usize) -> SemanticMatch {
    SemanticMatch {
        note_id: id.to_string(),
        relevance: Score { hits, words: count },
        matched_terms: Vec::new(),
    }
}

#[test]
fn relevance_counts_query_words_among_followers() {
    let mut chain = MarkovChain::new(1);
    chain.train("a b a c");
    let score = chain.calculate_semantic_relevance(&words(&["b", "c"]), &words(&["a", "b", "a"]));
    assert_eq!((score.hits, score.words), (4, 3));
    assert!(score.hits as f64 / score.words as f64 > 1.0);
}

#[test]
fn relevance_is_zero_without_a_follower_among_the_query() {
    let mut chain = MarkovChain::new(1);
    chain.train("a b a c");
    let score = chain.calculate_semantic_relevance(&words(&["z", "a"]), &words(&["a", "c", "q"]));
    assert_eq!((score.hits, score.words), (0, 3));
    assert_eq!(score.hits as f64 / score.words as f64, 0.0);
    let none = chain.calculate_semantic_relevance(&words(&[]), &words(&["a", "b"]));
    assert_eq!((none.hits, none.words), (0, 2));
}

#[test]
fn relevance_includes_the_last_window() {
    let mut chain = MarkovChain::new(1);
    chain.train("a b");
    let score = chain.calculate_semantic_relevance(&words(&["b"]), &words(&["a"]));
    assert_eq!((score.hits, score.words), (1, 1));
}

#[test]
fn relevance_with_longer_windows() {
    let mut chain = MarkovChain::new(2);
    chain.train("bir iki üç");
    let full = chain.calculate_semantic_relevance(&words(&["üç"]), &words(&["bir", "iki"]));
    assert_eq!((full.hits, full.words), (1, 2));
    let short = chain.calculate_semantic_relevance(&words(&["üç"]), &words(&["bir"]));
    assert_eq!((short.hits, short.words), (0, 1));
    let empty = chain.calculate_semantic_relevance(&words(&["üç"]), &words(&[]));
    assert_eq!((empty.hits, empty.words), (0, 0));
}

#[test]
fn matched_terms_keep_the_order_and_repetitions_of_the_query() {
    let chain = MarkovChain::new(1);
    assert_eq!(
        chain.find_matched_terms(&words(&["b", "x", "a", "b"]), &words(&["a", "b"])),
        words(&["b", "a", "b"])
    );
    assert_eq!(chain.find_matched_terms(&words(&["a"]), &words(&[])), Vec::<String>::new());
    assert_eq!(chain.find_matched_terms(&words(&[]), &words(&["a"])), Vec::<String>::new());
    assert_eq!(chain.find_matched_terms(&words(&["A"]), &words(&["a"])), Vec::<String>::new());
}

#[test]
fn search_keeps_only_notes_above_three_tenths() {
    let mut chain = MarkovChain::new(1);
    chain.train("a b");
    let notes = vec![
        note("quarter", "a x x x"),
        note("third", "a x x"),
        note("exactly", "a a a x x x x x x x"),
        note("none", "x y z"),
        note("empty", ""),
        note("whole", "a"),
    ];
    let matches = chain._find_semantic_matches("b", &notes);
    assert_eq!(ids(&matches), words(&["whole", "third"]));
    for found in &matches {
        assert!(found.relevance.hits as f64 / found.relevance.words as f64 > 0.3);
        assert!(10 * found.relevance.hits > 3 * found.relevance.words as u128);
    }
    assert_eq!((matches[0].relevance.hits, matches[0].relevance.words), (1, 1));
    assert_eq!((matches[1].relevance.hits, matches[1].relevance.words), (1, 3));
}

#[test]
fn search_sorts_by_relevance_and_keeps_ties_in_order() {
    let mut chain = MarkovChain::new(1);
    chain.train("a b");
    let notes = vec![
        note("n1", "a x x"),
        note("n2", "a"),
        note("n3", "a x"),
        note("n4", "a y"),
        note("n5", "a a"),
        note("n6", "y a"),
    ];
    let matches = chain._find_semantic_matches("b", &notes);
    assert_eq!(ids(&matches), words(&["n2", "n5", "n3", "n4", "n6", "n1"]));
}

#[test]
fn search_lowers_query_and_notes_and_reports_literal_matches() {
    let mut chain = MarkovChain::new(1);
    chain.train("rapor hazır");
    let notes = vec![note("n1", "RAPOR Hazır"), note("n2", "Rapor")];
    let matches = chain._find_semantic_matches("Hazır  RAPOR yok", &notes);
    assert_eq!(ids(&matches), words(&["n2", "n1"]));
    assert_eq!(matches[0].matched_terms, words(&["rapor"]));
    assert_eq!(matches[1].matched_terms, words(&["hazır", "rapor"]));
    assert_eq!((matches[0].relevance.hits, matches[0].relevance.words), (1, 1));
    assert_eq!((matches[1].relevance.hits, matches[1].relevance.words), (1, 2));
}

#[test]
fn search_treats_missing_fields_as_empty() {
    let mut chain = MarkovChain::new(1);
    chain.train("a b");
    let notes = vec![
        NoteRecord { id: None, content: Some("a".to_string()), category: None, priority: None, date: None },
        NoteRecord { id: Some("x".to_string()), content: None, category: None, priority: None, date: None },
    ];
    let matches = chain._find_semantic_matches("b", &notes);
    assert_eq!(ids(&matches), words(&[""]));
}

#[test]
fn search_on_nothing() {
    let chain = MarkovChain::new(1);
    assert!(chain._find_semantic_matches("b", &[]).is_empty());
    assert!(chain._find_semantic_matches("", &[note("n", "a")]).is_empty());
}

#[test]
fn placing_goes_behind_equal_relevance() {
    let mut ranking = Vec::new();
    place_match(&mut ranking, found("a", 1, 2));
    place_match(&mut ranking, found("b", 2, 4));
    place_match(&mut ranking, found("c", 3, 4));
    place_match(&mut ranking, found("d", 1, 3));
    place_match(&mut ranking, found("e", 5, 10));
    assert_eq!(ids(&ranking), words(&["c", "a", "b", "e", "d"]));
}

#[test]
fn filters_take_first_and_last_date_by_place() {
    let chain = MarkovChain::new(1);
    let notes = vec![
        filed(Some("iş"), Some("high"), Some("2024-01-01")),
        filed(Some("kişisel"), Some("low"), Some("2024-03-01")),
    ];
    let filters = chain.suggest_filters("", &notes);
    let range = filters.date_range.expect("a range");
    assert_eq!(range.start, "2024-01-01");
    assert_eq!(range.end, "2024-03-01");
    assert_eq!(filters.category, Some(words(&["iş", "kişisel"])));
    assert_eq!(filters.priority, Some(words(&["high", "low"])));
}

#[test]
fn filters_follow_the_order_of_the_notes() {
    let chain = MarkovChain::new(1);
    let notes = vec![
        filed(Some("kişisel"), Some("low"), Some("2024-03-01")),
        filed(Some("iş"), Some("high"), Some("2024-01-01")),
    ];
    let filters = chain.suggest_filters("", &notes);
    let range = filters.date_range.expect("a range");
    assert_eq!(range.start, "2024-03-01");
    assert_eq!(range.end, "2024-01-01");
    assert_eq!(filters.category, Some(words(&["kişisel", "iş"])));
}

#[test]
fn filters_skip_missing_values_and_keep_repetitions() {
    let chain = MarkovChain::new(1);
    let notes = vec![
        filed(None, Some("high"), None),
        filed(Some("iş"), None, Some("2024-05-05")),
        filed(Some("iş"), Some("high"), None),
        filed(None, None, Some("2023-01-01")),
        filed(None, None, Some("2024-02-02")),
    ];
    let filters = chain.suggest_filters("q", &notes);
    assert_eq!(filters.category, Some(words(&["iş", "iş"])));
    assert_eq!(filters.priority, Some(words(&["high", "high"])));
    let range = filters.date_range.expect("a range");
    assert_eq!(range.start, "2024-05-05");
    assert_eq!(range.end, "2024-02-02");
}

#[test]
fn filters_of_one_dated_note() {
    let chain = MarkovChain::new(1);
    let filters = chain.suggest_filters("", &[filed(None, None, Some("2024-07-07"))]);
    let range = filters.date_range.expect("a range");
    assert_eq!(range.start, "2024-07-07");
    assert_eq!(range.end, "2024-07-07");
}

#[test]
fn filters_without_notes() {
    let chain = MarkovChain::new(1);
    let filters = chain.suggest_filters("", &[]);
    assert_eq!(filters.category, Some(Vec::new()));
    assert_eq!(filters.priority, Some(Vec::new()));
    let range = filters.date_range.expect("a range");
    assert_eq!(range.start, "");
    assert_eq!(range.end, "");
}

#[test]
fn one_field_of_all_notes() {
    let notes = vec![
        filed(Some("a"), Some("p"), None),
        filed(None, Some("q"), Some("d")),
    ];
    assert_eq!(collect_field(&notes, FilterField::Category), words(&["a"]));
    assert_eq!(collect_field(&notes, FilterField::Priority), words(&["p", "q"]));
    assert_eq!(collect_field(&notes, FilterField::Date), words(&["d"]));
}

#[test]
fn a_date_query_is_normalized() {
    let chain = MarkovChain::new(1);
    let analysis = chain.analyze_query("25/12/2024");
    assert_eq!(analysis.kind, QueryKind::Date);
    assert_eq!(analysis.value, "2024-12-25");
    let early = chain.analyze_query("01/02/0999");
    assert_eq!(early.kind, QueryKind::Date);
    assert_eq!(early.value, "0999-02-01");
}

#[test]
fn other_queries_are_text() {
    let chain = MarkovChain::new(1);
    for query in ["toplantı notları", "", "2024-12-25", "31/02/2024", "25/13/2024", "25/12", "25/12/2024 sabah", "12.25.2024"] {
        let analysis = chain.analyze_query(query);
        assert_eq!(analysis.kind, QueryKind::Text, "{:?}", query);
        assert_eq!(analysis.value, query);
    }
}

#[test]
fn classification_of_a_read_date() {
    let date = classify_query("1/1/2024", Some("2024-01-01".to_string()));
    assert_eq!(date.kind, QueryKind::Date);
    assert_eq!(date.value, "2024-01-01");
    let text = classify_query("merhaba", None);
    assert_eq!(text.kind, QueryKind::Text);
    assert_eq!(text.value, "merhaba");
}

#[test]
fn search_returns_matches_and_filters() {
    let mut chain = MarkovChain::new(1);
    chain.train("a b");
    let notes = vec![
        NoteRecord {
            id: Some("1".to_string()),
            content: Some("a x x x".to_string()),
            category: Some("iş".to_string()),
            priority: Some("high".to_string()),
            date: Some("2024-01-01".to_string()),
        },
        NoteRecord {
            id: Some("2".to_string()),
            content: Some("a b".to_string()),
            category: None,
            priority: Some("low".to_string()),
            date: Some("2024-03-01".to_string()),
        },
    ];
    let result = chain.semantic_search("B", &notes);
    assert_eq!(ids(&result.semantic_matches), words(&["2"]));
    assert_eq!(result.semantic_matches[0].matched_terms, words(&["b"]));
    assert_eq!(result.suggested_filters.category, Some(words(&["iş"])));
    assert_eq!(result.suggested_filters.priority, Some(words(&["high", "low"])));
    let range = result.suggested_filters.date_range.expect("a range");
    assert_eq!((range.start.as_str(), range.end.as_str()), ("2024-01-01", "2024-03-01"));
}

#[test]
fn search_without_notes_needs_no_window() {
    let mut chain = MarkovChain::new(0);
    chain.train("a b");
    assert!(chain._find_semantic_matches("a", &[]).is_empty());
    let result = chain.semantic_search("a", &[]);
    assert!(result.semantic_matches.is_empty());
}
