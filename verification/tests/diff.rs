use ren::diff::{distance_of_chars, edit_distance};

#[test]
fn edit_distance_of_known_pairs() {
    assert_eq!(edit_distance("kitten", "sitting"), 3);
    assert_eq!(edit_distance("hewwo", "hello"), 2);
    assert_eq!(edit_distance("flaw", "lawn"), 2);
    assert_eq!(edit_distance("saturday", "sunday"), 3);
    assert_eq!(edit_distance("abc", "abc"), 0);
    assert_eq!(edit_distance("abc", "abd"), 1);
    assert_eq!(edit_distance("abc", "ab"), 1);
    assert_eq!(edit_distance("abc", "xabc"), 1);
}

#[test]
fn edit_distance_from_empty_is_the_length() {
    assert_eq!(edit_distance("", ""), 0);
    assert_eq!(edit_distance("", "abc"), 3);
    assert_eq!(edit_distance("abcd", ""), 4);
}

#[test]
fn edit_distance_counts_characters_not_bytes() {
    assert_eq!(edit_distance("caf\u{e9}", "cafe"), 1);
    assert_eq!(edit_distance("", "\u{4eac}\u{90fd}"), 2);
}

#[test]
fn edit_distance_is_symmetric_on_samples() {
    let words = ["", "a", "ab", "ba", "hello", "hewwo", "world", "kitten", "sitting"];
    for a in words {
        for b in words {
            assert_eq!(edit_distance(a, b), edit_distance(b, a));
        }
    }
}

#[test]
fn edit_distance_agrees_with_levenshtein_crate() {
    let words = ["", "a", "ab", "ba", "hello", "hewwo", "world", "hola", "mundo", "sitting"];
    for a in words {
        for b in words {
            assert_eq!(edit_distance(a, b), levenshtein::levenshtein(a, b));
        }
    }
}

#[test]
fn distance_of_chars_matches_edit_distance() {
    let a: Vec<char> = "intention".chars().collect();
    let b: Vec<char> = "execution".chars().collect();
    assert_eq!(distance_of_chars(&a, &b), 5);
    assert_eq!(distance_of_chars(&b, &a), 5);
    assert_eq!(distance_of_chars(&a, &Vec::new()), 9);
}
