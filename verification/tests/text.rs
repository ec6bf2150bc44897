use markov_notes::text::{
    chars_of, contains, is_whitespace, join_with, precedes, same_text, split_whitespace,
};

fn words(list: &[&str]) -> Vec<String> {
    list.iter().map(|w| w.to_string()).collect()
}

#[test]
fn whitespace_is_the_unicode_property() {
    let mut code: u32 = 0;
    while code <= 0x10FFFF {
        if let Some(c) = char::from_u32(code) {
            assert_eq!(is_whitespace(c), c.is_whitespace(), "U+{:04X}", code);
        }
        code += 1;
    }
}

#[test]
fn whitespace_edge_characters() {
    assert!(is_whitespace(' '));
    assert!(is_whitespace('\t'));
    assert!(is_whitespace('\n'));
    assert!(is_whitespace('\u{0B}'));
    assert!(is_whitespace('\u{85}'));
    assert!(is_whitespace('\u{A0}'));
    assert!(is_whitespace('\u{3000}'));
    assert!(!is_whitespace('\u{08}'));
    assert!(!is_whitespace('\u{0E}'));
    assert!(!is_whitespace('\u{200B}'));
    assert!(!is_whitespace('a'));
}

#[test]
fn splitting_agrees_with_std() {
    let samples = [
        "",
        " ",
        "a",
        "a b",
        "  a  b  ",
        "bir\tiki\nüç",
        "çok   güzel\u{A0}bir\u{3000}gün",
        "\n\n",
        "kategori: iş",
        "x\u{2028}y\u{2029}z",
        "tek",
        " baş",
        "son ",
    ];
    for text in samples {
        let expected: Vec<String> = text.split_whitespace().map(|w| w.to_string()).collect();
        assert_eq!(split_whitespace(text), expected, "{:?}", text);
    }
}

#[test]
fn splitting_exact_values() {
    assert_eq!(split_whitespace("  bir  iki üç "), words(&["bir", "iki", "üç"]));
    assert_eq!(split_whitespace(""), Vec::<String>::new());
    assert_eq!(split_whitespace(" \t\n"), Vec::<String>::new());
}

#[test]
fn joining_puts_the_separator_between() {
    assert_eq!(join_with(&words(&[]), " "), "");
    assert_eq!(join_with(&words(&["a"]), " "), "a");
    assert_eq!(join_with(&words(&["a", "b", "c"]), " "), "a b c");
    assert_eq!(join_with(&words(&["a", "", "c"]), ", "), "a, , c");
}

#[test]
fn joined_words_split_again() {
    let list = words(&["önemli", "bir", "toplantı"]);
    assert_eq!(split_whitespace(&join_with(&list, " ")), list);
}

#[test]
fn characters_in_order() {
    assert_eq!(chars_of("iş!"), vec!['i', 'ş', '!']);
    assert_eq!(chars_of(""), Vec::<char>::new());
}

#[test]
fn substring_search_agrees_with_std() {
    let hays = ["", "a", "abc", "işlem yapıldı", "aaa", "abababc", "toplantı"];
    let needles = ["", "a", "b", "c", "ab", "bc", "abc", "abcd", "iş", "ş", "aa", "ababc", "tı", "x"];
    for hay in hays {
        for needle in needles {
            assert_eq!(contains(hay, needle), hay.contains(needle), "{:?} in {:?}", needle, hay);
        }
    }
}

#[test]
fn substring_edges() {
    assert!(contains("", ""));
    assert!(contains("abc", ""));
    assert!(!contains("", "a"));
    assert!(contains("abc", "abc"));
    assert!(!contains("abc", "abcd"));
    assert!(contains("xxabc", "abc"));
}

#[test]
fn equal_texts() {
    assert!(same_text("", ""));
    assert!(same_text("grup-1", "grup-1"));
    assert!(!same_text("grup-1", "grup-2"));
    assert!(!same_text("grup", "grup-1"));
}

#[test]
fn string_order_agrees_with_std() {
    let samples = ["", "a", "b", "ab", "aa", "abc", "abd", "B", "ş", "z", "zz", "ğ", "g1", "g10", "g2", "\u{10000}", "\u{FFFF}"];
    for a in samples {
        for b in samples {
            assert_eq!(precedes(a, b), a < b, "{:?} < {:?}", a, b);
        }
    }
}
