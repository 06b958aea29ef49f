use ren::suggestion::{
    get_best_suggestion, get_suggestions, get_suggestions_within, Suggestion,
    MAX_LENGTH_DIFFERENCE,
};
use ren::wordlist::Wordlist;

fn list(lang: &str, words: &[&str]) -> Wordlist {
    Wordlist {
        lang: lang.to_string(),
        words: words.iter().map(|w| w.to_string()).collect(),
    }
}

fn pairs(suggestions: &[Suggestion]) -> Vec<(String, String)> {
    suggestions
        .iter()
        .map(|s| (s.word.clone(), s.lang.clone()))
        .collect()
}

fn pair(word: &str, lang: &str) -> (String, String) {
    (word.to_string(), lang.to_string())
}

#[test]
fn best_suggestion() {
    let wordlists = vec![
        Wordlist {
            lang: "en".to_string(),
            words: vec!["hello".to_string(), "world".to_string()],
        },
        Wordlist {
            lang: "es".to_string(),
            words: vec!["hola".to_string(), "mundo".to_string()],
        },
    ];

    let suggestions = get_suggestions("hewwo", &wordlists);
    let best_suggestion = suggestions.first().unwrap();
    assert_eq!(best_suggestion.word, "hello");
    assert_eq!(best_suggestion.lang, "en");
}

#[test]
fn ranking_is_by_distance_then_by_wordlist_order() {
    let wordlists = vec![
        list("en", &["hello", "world"]),
        list("es", &["hola", "mundo"]),
    ];
    // hello: 2, world: 5, hola: 4, mundo: 4
    let ranked = get_suggestions("hewwo", &wordlists);
    assert_eq!(
        pairs(&ranked),
        vec![
            pair("hello", "en"),
            pair("hola", "es"),
            pair("mundo", "es"),
            pair("world", "en"),
        ]
    );
}

#[test]
fn ranking_moves_closer_words_to_the_front() {
    let wordlists = vec![list("en", &["zzzz", "cart", "cat", "bat"])];
    // zzzz: 4, cart: 1, cat: 0, bat: 1
    let ranked = get_suggestions("cat", &wordlists);
    assert_eq!(
        pairs(&ranked),
        vec![
            pair("cat", "en"),
            pair("cart", "en"),
            pair("bat", "en"),
            pair("zzzz", "en"),
        ]
    );
}

#[test]
fn equally_close_words_keep_their_order() {
    let wordlists = vec![
        list("b", &["bat", "cat", "hat"]),
        list("a", &["mat", "bat"]),
    ];
    let ranked = get_suggestions("rat", &wordlists);
    assert_eq!(
        pairs(&ranked),
        vec![
            pair("bat", "b"),
            pair("cat", "b"),
            pair("hat", "b"),
            pair("mat", "a"),
            pair("bat", "a"),
        ]
    );
}

#[test]
fn ranking_twice_gives_the_same_sequence() {
    let wordlists = vec![
        list("en", &["hello", "help", "hell", "held", "world", "word"]),
        list("es", &["hola", "mundo", "hello"]),
    ];
    let first = get_suggestions("helo", &wordlists);
    let second = get_suggestions("helo", &wordlists);
    assert_eq!(first.len(), 9);
    assert_eq!(pairs(&first), pairs(&second));
}

#[test]
fn ranking_of_many_words_is_sorted_and_stable() {
    let mut words: Vec<String> = Vec::new();
    for i in 0..500 {
        let extra = (i * 7) % 6;
        words.push(format!("{}{}", "a".repeat(3), "b".repeat(extra)));
        words.push(format!("{}{}", "c".repeat(extra), "a".repeat(3)));
    }
    let wordlists = vec![Wordlist { lang: "t".to_string(), words: words.clone() }];
    let ranked = get_suggestions("aaa", &wordlists);
    assert_eq!(ranked.len(), 1000);
    let mut expected: Vec<(usize, usize)> = words
        .iter()
        .enumerate()
        .map(|(i, w)| (w.len() - 3, i))
        .collect();
    expected.sort();
    for (k, (_, i)) in expected.iter().enumerate() {
        assert_eq!(ranked[k].word, words[*i]);
    }
}

#[test]
fn words_out_of_reach_are_no_candidates() {
    let wordlists = vec![list("en", &["a", "abcdefg", "ab", "abcdefgh"])];
    // Lengths 1, 7, 2 and 8 against 2 + 5: only the last is too long.
    let ranked = get_suggestions("ab", &wordlists);
    assert_eq!(
        pairs(&ranked),
        vec![pair("ab", "en"), pair("a", "en"), pair("abcdefg", "en")]
    );
}

#[test]
fn query_far_longer_than_every_word_gets_nothing() {
    let wordlists = vec![list("en", &["hello", "world"]), list("es", &["hola"])];
    assert_eq!(get_suggestions("pneumonoultramicroscopic", &wordlists).len(), 0);
    assert!(get_best_suggestion("pneumonoultramicroscopic", &wordlists).is_none());
}

#[test]
fn exact_match_out_of_reach_is_not_found_by_shorter_query() {
    let wordlists = vec![list("en", &["internationalization"])];
    assert_eq!(get_suggestions("international", &wordlists).len(), 0);
    assert_eq!(get_suggestions("internationaliz", &wordlists).len(), 1);
}

#[test]
fn reach_is_measured_in_characters() {
    // Six characters, twelve bytes.
    let wordlists = vec![list("el", &["\u{3b1}\u{3b2}\u{3b3}\u{3b4}\u{3b5}\u{3b6}"])];
    assert_eq!(get_suggestions("a", &wordlists).len(), 1);
    assert_eq!(get_suggestions("", &wordlists).len(), 0);
}

#[test]
fn empty_query_ranks_by_length() {
    let wordlists = vec![list("en", &["abc", "a", "abcdef", "ab", "abcde"])];
    let ranked = get_suggestions("", &wordlists);
    assert_eq!(
        pairs(&ranked),
        vec![pair("a", "en"), pair("ab", "en"), pair("abc", "en"), pair("abcde", "en")]
    );
}

#[test]
fn no_wordlists_no_suggestions() {
    assert_eq!(get_suggestions("word", &[]).len(), 0);
    assert!(get_best_suggestion("word", &[]).is_none());
    assert_eq!(get_suggestions("word", &[list("en", &[])]).len(), 0);
}

#[test]
fn limit_can_be_tuned_and_lifted() {
    let wordlists = vec![list("en", &["a", "abc", "abcdefghijkl"])];
    assert_eq!(MAX_LENGTH_DIFFERENCE, 5);
    assert_eq!(pairs(&get_suggestions_within("abc", &wordlists, 0)), vec![pair("abc", "en")]);
    assert_eq!(
        pairs(&get_suggestions_within("abc", &wordlists, 2)),
        vec![pair("abc", "en"), pair("a", "en")]
    );
    assert_eq!(
        pairs(&get_suggestions_within("abc", &wordlists, usize::MAX)),
        vec![pair("abc", "en"), pair("a", "en"), pair("abcdefghijkl", "en")]
    );
    assert_eq!(
        pairs(&get_suggestions_within("abc", &wordlists, MAX_LENGTH_DIFFERENCE)),
        pairs(&get_suggestions("abc", &wordlists))
    );
}

#[test]
fn best_suggestion_is_the_head_of_the_ranking() {
    let wordlists = vec![
        list("en", &["world", "hello", "help"]),
        list("es", &["hola", "hello"]),
    ];
    let best = get_best_suggestion("helo", &wordlists).unwrap();
    assert_eq!((best.word.as_str(), best.lang.as_str()), ("hello", "en"));
    let ranked = get_suggestions("helo", &wordlists);
    assert_eq!((ranked[0].word.as_str(), ranked[0].lang.as_str()), ("hello", "en"));
}
