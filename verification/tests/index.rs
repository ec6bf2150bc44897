use markov_notes::index::{copy_words, same_words, NgramIndex};
use markov_notes::lexicon::Lexicons;
use markov_notes::models::ShiftType;

fn words(list: &[&str]) -> Vec<String> {
    list.iter().map(|w| w.to_string()).collect()
}

#[test]
fn an_empty_index_has_no_keys() {
    let index = NgramIndex::new();
    assert!(index.get(&words(&["a"])).is_none());
    assert!(index.get(&[]).is_none());
}

#[test]
fn recording_appends_to_the_followers_of_a_key() {
    let mut index = NgramIndex::new();
    index.record(words(&["a", "b"]), "c".to_string());
    index.record(words(&["b", "c"]), "d".to_string());
    index.record(words(&["a", "b"]), "e".to_string());
    index.record(words(&["a", "b"]), "c".to_string());
    assert_eq!(index.get(&words(&["a", "b"])), Some(&words(&["c", "e", "c"])));
    assert_eq!(index.get(&words(&["b", "c"])), Some(&words(&["d"])));
    assert_eq!(index.get(&words(&["b", "a"])), None);
    assert_eq!(index.get(&words(&["a"])), None);
}

#[test]
fn the_empty_window_is_a_key_like_any_other() {
    let mut index = NgramIndex::new();
    index.record(Vec::new(), "x".to_string());
    index.record(Vec::new(), "y".to_string());
    assert_eq!(index.get(&[]), Some(&words(&["x", "y"])));
}

#[test]
fn word_lists_compare_by_content() {
    assert!(same_words(&words(&[]), &words(&[])));
    assert!(same_words(&words(&["a", "b"]), &words(&["a", "b"])));
    assert!(!same_words(&words(&["a", "b"]), &words(&["b", "a"])));
    assert!(!same_words(&words(&["a"]), &words(&["a", "a"])));
    assert!(!same_words(&words(&["a"]), &words(&["A"])));
}

#[test]
fn a_copy_holds_the_same_words() {
    let list = words(&["bir", "iki", "üç"]);
    assert_eq!(copy_words(&list), list);
    assert_eq!(copy_words(&list[1..]), words(&["iki", "üç"]));
    assert_eq!(copy_words(&[]), Vec::<String>::new());
}

#[test]
fn the_vocabularies_load_with_their_words() {
    let lexicons = Lexicons::load();
    assert_eq!(lexicons.positive.len(), 4);
    assert_eq!(lexicons.negative.len(), 4);
    assert_eq!(lexicons.categories.len(), 5);
    assert_eq!(lexicons.tags.len(), 5);
    assert_eq!(lexicons.positive[3], "muhteşem");
    assert_eq!(lexicons.negative[0], "kötü");
    assert_eq!(lexicons.categories[2], "alışveriş");
    assert_eq!(lexicons.tags[4], "görev");
}

#[test]
fn a_shift_is_found_again_under_its_label() {
    for shift in [ShiftType::Morning, ShiftType::Night, ShiftType::Rest] {
        assert_eq!(ShiftType::from_label(&shift.label()), shift);
    }
    assert_eq!(ShiftType::Morning.label(), "Morning");
    assert_eq!(ShiftType::Night.label(), "Night");
    assert_eq!(ShiftType::Rest.label(), "Rest");
    assert_eq!(ShiftType::from_label("morning"), ShiftType::Rest);
    assert_eq!(ShiftType::from_label(""), ShiftType::Rest);
}
