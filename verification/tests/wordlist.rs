use ren::wordlist::{load, load_multiple, wordlist_path, Wordlist};

fn english() -> Wordlist {
    Wordlist {
        lang: "en".to_string(),
        words: vec!["hello".to_string(), "world".to_string(), "Paris".to_string()],
    }
}

#[test]
fn contains_finds_exactly_the_stored_words() {
    let list = english();
    assert!(list.contains("hello"));
    assert!(list.contains("world"));
    assert!(list.contains("Paris"));
    assert!(!list.contains("hola"));
    assert!(!list.contains(""));
    assert!(!list.contains("hell"));
    assert!(!list.contains("hello "));
}

#[test]
fn contains_compares_case_as_stored() {
    let list = english();
    assert!(!list.contains("Hello"));
    assert!(!list.contains("paris"));
}

#[test]
fn contains_on_empty_wordlist_is_false() {
    let list = Wordlist { lang: "xx".to_string(), words: vec![] };
    assert!(!list.contains("anything"));
}

#[test]
fn load_skips_blank_lines_and_comments() {
    let list = load("en_us", "// header\napple\n\nbanana\n//cherry\ndate");
    assert_eq!(list.lang, "en_us");
    assert_eq!(list.words, vec!["apple", "banana", "date"]);
}

#[test]
fn load_keeps_duplicates_and_order() {
    let list = load("en", "b\na\nb\n");
    assert_eq!(list.words, vec!["b", "a", "b"]);
}

#[test]
fn load_takes_the_carriage_return_as_part_of_the_line_ending() {
    let list = load("en", "one\r\n\r\ntwo\r\n// no\r\nthree");
    assert_eq!(list.words, vec!["one", "two", "three"]);
    // A carriage return that no newline follows stays in the word.
    let list = load("en", "one\r\ntwo\r");
    assert_eq!(list.words, vec!["one", "two\r"]);
}

#[test]
fn load_keeps_lines_that_only_look_like_comments() {
    let list = load("en", "/\n/ /x\n /\u{2f}indented\n//");
    assert_eq!(list.words, vec!["/", "/ /x", " //indented"]);
}

#[test]
fn load_of_empty_content_is_empty() {
    assert_eq!(load("en", "").words.len(), 0);
    assert_eq!(load("en", "\n\n").words.len(), 0);
}

#[test]
fn load_multiple_builds_one_list_per_source() {
    let sources = vec![
        ("en".to_string(), "hello\nworld\n".to_string()),
        ("es".to_string(), "// es\nhola\nmundo".to_string()),
    ];
    let lists = load_multiple(&sources);
    assert_eq!(lists.len(), 2);
    assert_eq!(lists[0].lang, "en");
    assert_eq!(lists[0].words, vec!["hello", "world"]);
    assert_eq!(lists[1].lang, "es");
    assert_eq!(lists[1].words, vec!["hola", "mundo"]);
    assert_eq!(load_multiple(&[]).len(), 0);
}

#[test]
fn wordlist_path_is_under_wordlists() {
    assert_eq!(wordlist_path("en_us"), "./wordlists/en_us.txt");
    assert_eq!(wordlist_path(""), "./wordlists/.txt");
}
