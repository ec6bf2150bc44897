use markov_notes::analysis::{
    contains_word, count_members, lowercase_words, select_present,
};
use markov_notes::markov::MarkovChain;

fn words(list: &[&str]) -> Vec<String> {
    list.iter().map(|w| w.to_string()).collect()
}

#[test]
fn two_positive_words_are_positive() {
    let chain = MarkovChain::new(1);
    assert_eq!(chain.analyze_sentiment("iyi harika"), "positive");
}

#[test]
fn one_positive_and_one_negative_word_are_neutral() {
    let chain = MarkovChain::new(1);
    assert_eq!(chain.analyze_sentiment("iyi kötü"), "neutral");
    assert_eq!(chain.analyze_sentiment("bugün berbat ama yarın güzel"), "neutral");
}

#[test]
fn sentiment_cases() {
    let chain = MarkovChain::new(1);
    assert_eq!(chain.analyze_sentiment(""), "neutral");
    assert_eq!(chain.analyze_sentiment("sıradan bir gün"), "neutral");
    assert_eq!(chain.analyze_sentiment("berbat"), "negative");
    assert_eq!(chain.analyze_sentiment("korkunç üzgün iyi"), "negative");
    assert_eq!(chain.analyze_sentiment("iyi iyi kötü"), "positive");
    assert_eq!(chain.analyze_sentiment("muhteşem güzel harika iyi"), "positive");
}

#[test]
fn sentiment_takes_whole_words_as_they_stand() {
    let chain = MarkovChain::new(1);
    assert_eq!(chain.analyze_sentiment("İyi"), "neutral");
    assert_eq!(chain.analyze_sentiment("iyi,"), "neutral");
    assert_eq!(chain.analyze_sentiment("iyilik"), "neutral");
    assert_eq!(chain.analyze_sentiment("HARIKA"), "neutral");
}

#[test]
fn categories_are_found_anywhere_in_the_text() {
    let chain = MarkovChain::new(1);
    assert_eq!(chain.analyze_categories("Bugün iş toplantısı var"), words(&["iş"]));
    assert_eq!(chain.analyze_categories("işlem tamam"), words(&["iş"]));
    assert_eq!(chain.analyze_categories("Eğitim ve sağlık"), words(&["sağlık", "eğitim"]));
    assert_eq!(chain.analyze_categories("alışveriş listesi"), words(&["iş", "alışveriş"]));
    assert_eq!(chain.analyze_categories("kişisel not"), words(&["iş", "kişisel"]));
    assert_eq!(chain.analyze_categories("hiçbiri"), Vec::<String>::new());
    assert_eq!(chain.analyze_categories(""), Vec::<String>::new());
}

#[test]
fn categories_come_in_the_order_of_the_list() {
    let chain = MarkovChain::new(1);
    assert_eq!(
        chain.analyze_categories("eğitim sağlık alışveriş kişisel iş"),
        words(&["iş", "kişisel", "alışveriş", "sağlık", "eğitim"])
    );
}

#[test]
fn keywords_are_the_first_five_long_words() {
    let chain = MarkovChain::new(1);
    assert_eq!(
        chain.extract_keywords("bu uzun bir cümle içinde kelimeler seçilecek şimdi hemen"),
        words(&["uzun", "cümle", "içinde", "kelimeler", "seçilecek"])
    );
}

#[test]
fn keywords_edge_cases() {
    let chain = MarkovChain::new(1);
    assert_eq!(chain.extract_keywords(""), Vec::<String>::new());
    assert_eq!(chain.extract_keywords("a bb ccc"), Vec::<String>::new());
    assert_eq!(chain.extract_keywords("abcd"), words(&["abcd"]));
    assert_eq!(chain.extract_keywords("aaaa aaaa bbb aaaa"), words(&["aaaa", "aaaa", "aaaa"]));
    assert_eq!(
        chain.extract_keywords("bir1 iki2 üç33 dört beş5 altı yedi"),
        words(&["bir1", "iki2", "üç33", "dört", "beş5"])
    );
}

#[test]
fn keyword_length_counts_characters() {
    let chain = MarkovChain::new(1);
    assert_eq!(chain.extract_keywords("çok şık üçü dörtlü"), words(&["dörtlü"]));
}

#[test]
fn tags_are_matched_in_lowercase() {
    let chain = MarkovChain::new(1);
    assert_eq!(
        chain.suggest_tags("ACIL proje Toplantı"),
        words(&["acil", "toplantı", "proje"])
    );
    assert_eq!(chain.suggest_tags("projeler"), words(&["proje"]));
    assert_eq!(chain.suggest_tags("önemli görev"), words(&["önemli", "görev"]));
    assert_eq!(chain.suggest_tags(""), Vec::<String>::new());
}

#[test]
fn selection_pairs_names_with_needles() {
    let names = words(&["bir", "iki", "üç"]);
    let needles = words(&["x", "y", "z"]);
    assert_eq!(select_present(&names, &needles, "zyq"), words(&["iki", "üç"]));
    assert_eq!(select_present(&names, &needles, ""), Vec::<String>::new());
    assert_eq!(select_present(&names, &words(&["", "", ""]), ""), names);
    assert_eq!(select_present(&names, &words(&["x"]), "x"), Vec::<String>::new());
}

#[test]
fn membership_and_counts() {
    let list = words(&["a", "b"]);
    assert!(contains_word(&list, &"a".to_string()));
    assert!(!contains_word(&list, &"c".to_string()));
    assert!(!contains_word(&[], &"a".to_string()));
    assert_eq!(count_members(&words(&["a", "c", "a", "b"]), &list), 3);
    assert_eq!(count_members(&words(&[]), &list), 0);
    assert_eq!(count_members(&words(&["a"]), &[]), 0);
}

#[test]
fn words_are_lowered_one_by_one() {
    assert_eq!(lowercase_words("  Proje ACIL  Toplantı "), words(&["proje", "acil", "toplantı"]));
    assert_eq!(lowercase_words(""), Vec::<String>::new());
}

#[test]
fn importance_counts_keywords_among_followers() {
    let mut chain = MarkovChain::new(1);
    chain.train("proje acil toplantı acil");
    let importance = chain.analyze_importance("Proje ACIL toplantı", &words(&["acil"]));
    assert_eq!(importance.keyword_count, 1);
    assert_eq!(importance.score.hits, 2);
    assert_eq!(importance.score.words, 3);
}

#[test]
fn importance_counts_the_last_window() {
    let mut chain = MarkovChain::new(1);
    chain.train("a b");
    let alone = chain.analyze_importance("a", &words(&["b"]));
    assert_eq!((alone.keyword_count, alone.score.hits, alone.score.words), (0, 1, 1));
    let followed = chain.analyze_importance("a z", &words(&["b"]));
    assert_eq!((followed.keyword_count, followed.score.hits, followed.score.words), (0, 1, 2));
    let last = chain.analyze_importance("b a", &words(&["b"]));
    assert_eq!((last.keyword_count, last.score.hits, last.score.words), (1, 1, 2));
    assert_eq!(last.score.hits as f64 / last.score.words as f64, 0.5);
    let both = chain.analyze_importance("a a", &words(&["b"]));
    assert_eq!((both.keyword_count, both.score.hits, both.score.words), (0, 2, 2));
}

#[test]
fn importance_with_windows_of_no_words() {
    let mut chain = MarkovChain::new(0);
    chain.train("x y");
    let importance = chain.analyze_importance("a b x", &words(&["x", "z"]));
    assert_eq!(importance.keyword_count, 1);
    assert_eq!(importance.score.hits, 3);
    assert_eq!(importance.score.words, 3);
    let empty = chain.analyze_importance("", &words(&["x"]));
    assert_eq!((empty.keyword_count, empty.score.hits, empty.score.words), (0, 0, 0));
}

#[test]
fn importance_counts_each_keyword_and_each_window() {
    let mut chain = MarkovChain::new(1);
    chain.train("a b a c");
    let importance = chain.analyze_importance("A b a b", &words(&["b", "c", "b", "a"]));
    assert_eq!(importance.keyword_count, 4);
    assert_eq!(importance.score.hits, 3 + 1 + 3 + 1);
    assert_eq!(importance.score.words, 4);
}

#[test]
fn importance_without_keyword_words_keeps_its_ratio() {
    let mut chain = MarkovChain::new(1);
    chain.train("x acil");
    let importance = chain.analyze_importance("x y", &words(&["acil"]));
    assert_eq!(importance.keyword_count, 0);
    assert_eq!(importance.score.hits, 1);
    assert_eq!(importance.score.words, 2);
}

#[test]
fn importance_of_an_empty_text() {
    let chain = MarkovChain::new(1);
    let importance = chain.analyze_importance("", &words(&["a"]));
    assert_eq!((importance.keyword_count, importance.score.hits, importance.score.words), (0, 0, 0));
}

#[test]
fn importance_with_longer_windows() {
    let mut chain = MarkovChain::new(2);
    chain.train("bir iki üç");
    let importance = chain.importance_of_words(&words(&["bir", "iki", "dört", "bir", "iki"]), &words(&["üç"]));
    assert_eq!(importance.keyword_count, 0);
    assert_eq!(importance.score.hits, 2);
    assert_eq!(importance.score.words, 5);
    let short = chain.importance_of_words(&words(&["bir"]), &words(&["üç"]));
    assert_eq!((short.keyword_count, short.score.hits, short.score.words), (0, 0, 1));
    let exact = chain.importance_of_words(&words(&["bir", "iki"]), &words(&["üç"]));
    assert_eq!((exact.keyword_count, exact.score.hits, exact.score.words), (0, 1, 2));
}

#[test]
fn chain_hits_over_given_windows() {
    let mut chain = MarkovChain::new(1);
    chain.train("a b a c");
    let tokens = words(&["a", "b", "a"]);
    let queries = words(&["b", "c"]);
    assert_eq!(chain.count_chain_hits(&tokens, &queries, 0), 0);
    assert_eq!(chain.count_chain_hits(&tokens, &queries, 1), 2);
    assert_eq!(chain.count_chain_hits(&tokens, &queries, 2), 2);
    assert_eq!(chain.count_chain_hits(&tokens, &queries, 3), 4);
}

#[test]
fn content_analysis_gathers_every_analyzer() {
    let mut chain = MarkovChain::new(1);
    chain.train("proje toplantısı önemli");
    let analysis = chain.analyze_content("proje toplantısı harika geçti iş");
    assert_eq!(analysis.sentiment, "positive");
    assert_eq!(analysis.category, words(&["iş"]));
    assert_eq!(analysis.keywords, words(&["proje", "toplantısı", "harika", "geçti"]));
    assert_eq!(analysis.suggested_tags, words(&["toplantı", "proje"]));
    assert_eq!(analysis.importance.keyword_count, 4);
    assert_eq!(analysis.importance.score.hits, 1);
    assert_eq!(analysis.importance.score.words, 5);
}

#[test]
fn content_analysis_of_an_empty_text() {
    let chain = MarkovChain::new(2);
    let analysis = chain.analyze_content("");
    assert_eq!(analysis.sentiment, "neutral");
    assert!(analysis.category.is_empty());
    assert!(analysis.keywords.is_empty());
    assert!(analysis.suggested_tags.is_empty());
    assert_eq!(analysis.importance.keyword_count, 0);
    assert_eq!(analysis.importance.score.hits, 0);
    assert_eq!(analysis.importance.score.words, 0);
}
