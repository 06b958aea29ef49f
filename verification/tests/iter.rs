use ren::chars::{classify, classify_all, Symbol};
use ren::iter::{
    get_words_from_line, get_words_from_str, holds_scheme_separator, keep_letters,
    remove_punctuation, PositionedWord,
};

fn triples(words: &[PositionedWord]) -> Vec<(String, usize, usize)> {
    words
        .iter()
        .map(|w| (w.word.clone(), w.line, w.start_column))
        .collect()
}

fn plain(text: &str) -> Vec<Symbol> {
    text.chars()
        .map(|c| Symbol {
            value: c,
            alphabetic: c.is_ascii_alphabetic(),
            whitespace: c == ' ',
        })
        .collect()
}

#[test]
fn test_get_words_from_str() {
    let words = get_words_from_str("Hello, world!");

    assert_eq!(words.len(), 2);
    assert_eq!(words[0].word, "Hello");
    assert_eq!(words[0].word.to_lowercase(), "hello");
    assert_eq!(words[0].line, 0);
    assert_eq!(words[0].start_column, 0);

    assert_eq!(words[1].word, "world");
    assert_eq!(words[1].line, 0);
    assert_eq!(words[1].start_column, 7);
}

#[test]
fn test_filtering() {
    let words = get_words_from_str("Hello, world! https://google.com");

    assert_eq!(words.len(), 2);
    assert_eq!(words[0].word, "Hello");
    assert_eq!(words[0].word.to_lowercase(), "hello");
    assert_eq!(words[1].word, "world");
}

#[test]
fn empty_text_has_no_words() {
    assert_eq!(get_words_from_str("").len(), 0);
    assert_eq!(get_words_from_str("\n\n").len(), 0);
    assert_eq!(get_words_from_str("  \t ").len(), 0);
}

#[test]
fn lines_are_numbered_from_zero_and_columns_restart() {
    let words = get_words_from_str("one two\n\nthree\nfour five six");
    assert_eq!(
        triples(&words),
        vec![
            ("one".to_string(), 0, 0),
            ("two".to_string(), 0, 4),
            ("three".to_string(), 2, 0),
            ("four".to_string(), 3, 0),
            ("five".to_string(), 3, 5),
            ("six".to_string(), 3, 10),
        ]
    );
}

#[test]
fn last_line_needs_no_terminator() {
    let with = get_words_from_str("alpha\nbeta\n");
    let without = get_words_from_str("alpha\nbeta");
    assert_eq!(triples(&with), triples(&without));
    assert_eq!(triples(&with)[1], ("beta".to_string(), 1, 0));
}

#[test]
fn discarded_chunk_still_moves_the_column() {
    let words = get_words_from_str("a -- b");
    assert_eq!(
        triples(&words),
        vec![("a".to_string(), 0, 0), ("b".to_string(), 0, 5)]
    );
    let words = get_words_from_str("123 go");
    assert_eq!(triples(&words), vec![("go".to_string(), 0, 4)]);
}

#[test]
fn column_counts_the_chunk_as_written() {
    let words = get_words_from_str("(hi), there");
    assert_eq!(
        triples(&words),
        vec![("hi".to_string(), 0, 0), ("there".to_string(), 0, 6)]
    );
}

#[test]
fn runs_of_whitespace_count_as_one_separator() {
    let words = get_words_from_str("a   b\t\tc");
    assert_eq!(
        triples(&words),
        vec![
            ("a".to_string(), 0, 0),
            ("b".to_string(), 0, 2),
            ("c".to_string(), 0, 4),
        ]
    );
    let words = get_words_from_str("   lead");
    assert_eq!(triples(&words), vec![("lead".to_string(), 0, 0)]);
}

#[test]
fn url_chunk_gives_no_word_but_moves_the_column() {
    let words = get_words_from_str("see https://google.com now");
    assert_eq!(
        triples(&words),
        vec![("see".to_string(), 0, 0), ("now".to_string(), 0, 23)]
    );
    let words = get_words_from_str("a:/b c//d");
    assert_eq!(
        triples(&words),
        vec![("ab".to_string(), 0, 0), ("cd".to_string(), 0, 5)]
    );
}

#[test]
fn carriage_return_is_whitespace() {
    let words = get_words_from_str("one\r\ntwo\r\n");
    assert_eq!(
        triples(&words),
        vec![("one".to_string(), 0, 0), ("two".to_string(), 1, 0)]
    );
}

#[test]
fn letters_of_any_script_are_kept_and_counted_once() {
    let words = get_words_from_str("caf\u{e9}! na\u{ef}ve \u{4eac}");
    assert_eq!(
        triples(&words),
        vec![
            ("caf\u{e9}".to_string(), 0, 0),
            ("na\u{ef}ve".to_string(), 0, 6),
            ("\u{4eac}".to_string(), 0, 12),
        ]
    );
}

#[test]
fn no_word_is_empty() {
    let text = "Well -- 42 ... (ok) !? x\n\n:-) http://a.b/c end.\n";
    let words = get_words_from_str(text);
    assert_eq!(words.len(), 4);
    for w in &words {
        assert!(!w.word.is_empty());
        assert!(w.word.chars().all(|c| c.is_alphabetic()));
    }
}

#[test]
fn words_come_in_reading_order() {
    let text = "b a\nd  c e\n\n! z y\nx";
    let words = get_words_from_str(text);
    assert_eq!(words.len(), 8);
    for pair in words.windows(2) {
        assert!((pair[0].line, pair[0].start_column) < (pair[1].line, pair[1].start_column));
    }
}

#[test]
fn remove_punctuation_keeps_letters_and_whitespace() {
    assert_eq!(remove_punctuation("Hello,"), "Hello");
    assert_eq!(remove_punctuation("it's 4 o'clock!"), "its  oclock");
    assert_eq!(remove_punctuation("https://google.com"), "httpsgooglecom");
    assert_eq!(remove_punctuation("12345"), "");
    assert_eq!(remove_punctuation(""), "");
    assert_eq!(remove_punctuation("a\tb\nc"), "a\tb\nc");
}

#[test]
fn classify_reads_the_unicode_classes() {
    let a = classify('a');
    assert_eq!((a.value, a.alphabetic, a.whitespace), ('a', true, false));
    let space = classify(' ');
    assert_eq!((space.value, space.alphabetic, space.whitespace), (' ', false, true));
    let digit = classify('7');
    assert_eq!((digit.value, digit.alphabetic, digit.whitespace), ('7', false, false));
    let nbsp = classify('\u{a0}');
    assert!(nbsp.whitespace && !nbsp.alphabetic);
    let kanji = classify('\u{4eac}');
    assert!(kanji.alphabetic && !kanji.whitespace);
    let all = classify_all(&vec!['x', '\n', '-']);
    assert_eq!(all.len(), 3);
    assert!(all[0].alphabetic && all[1].whitespace && !all[2].alphabetic && !all[2].whitespace);
}

#[test]
fn words_of_a_line_follow_the_given_classes() {
    let words = get_words_from_line(&plain("Hello, world!"), 3);
    assert_eq!(
        triples(&words),
        vec![("Hello".to_string(), 3, 0), ("world".to_string(), 3, 7)]
    );
    // With the classes given, a tab is not whitespace and joins its chunk.
    let words = get_words_from_line(&plain("a\tb c"), 0);
    assert_eq!(
        triples(&words),
        vec![("ab".to_string(), 0, 0), ("c".to_string(), 0, 4)]
    );
}

#[test]
fn keep_letters_goes_by_the_given_classes() {
    assert_eq!(keep_letters(&plain("x-1 y")), "x y");
    assert_eq!(keep_letters(&plain("")), "");
}

#[test]
fn scheme_separator_is_found_anywhere_in_a_chunk() {
    assert!(holds_scheme_separator(&plain("://")));
    assert!(holds_scheme_separator(&plain("ftp://x")));
    assert!(holds_scheme_separator(&plain("(see://")));
    assert!(!holds_scheme_separator(&plain(":/")));
    assert!(!holds_scheme_separator(&plain("a:/b/")));
    assert!(!holds_scheme_separator(&plain("")));
}

#[test]
fn words_of_lines_are_numbered_by_line() {
    let lines = vec![plain("ab cd"), plain(""), plain("- x://y ef!"), plain("g")];
    let words = ren::iter::get_words_from_lines(&lines);
    assert_eq!(
        triples(&words),
        vec![
            ("ab".to_string(), 0, 0),
            ("cd".to_string(), 0, 3),
            ("ef".to_string(), 2, 8),
            ("g".to_string(), 3, 0),
        ]
    );
    assert_eq!(ren::iter::get_words_from_lines(&Vec::new()).len(), 0);
}
