use ren::check::{check_word, spelled_correctly, spellcheck};
use ren::wordlist::Wordlist;

fn lists() -> Vec<Wordlist> {
    vec![
        Wordlist {
            lang: "en".to_string(),
            words: vec!["hello".to_string(), "world".to_string(), "the".to_string()],
        },
        Wordlist {
            lang: "es".to_string(),
            words: vec!["hola".to_string(), "mundo".to_string()],
        },
    ]
}

#[test]
fn word_of_any_language_is_spelled_correctly() {
    let lists = lists();
    assert!(spelled_correctly("hello", &lists));
    assert!(spelled_correctly("mundo", &lists));
    assert!(!spelled_correctly("hewwo", &lists));
    assert!(!spelled_correctly("Hello", &lists));
    assert!(!spelled_correctly("hello", &[]));
}

#[test]
fn check_word_passes_known_words_and_suggests_for_others() {
    let lists = lists();
    assert!(check_word("hola", &lists).is_none());
    let verdict = check_word("hewwo", &lists).unwrap().unwrap();
    assert_eq!((verdict.word.as_str(), verdict.lang.as_str()), ("hello", "en"));
    let verdict = check_word("supercalifragilistic", &lists).unwrap();
    assert!(verdict.is_none());
}

#[test]
fn spellcheck_reports_misspellings_in_reading_order() {
    let text = "Hello wurld,\nthe mundo is hewwo!\n";
    let report = spellcheck(text, &lists());
    assert_eq!(report.len(), 3);

    assert_eq!(report[0].word.word, "wurld");
    assert_eq!((report[0].word.line, report[0].word.start_column), (0, 6));
    let s = report[0].suggestion.as_ref().unwrap();
    assert_eq!((s.word.as_str(), s.lang.as_str()), ("world", "en"));

    assert_eq!(report[1].word.word, "is");
    assert_eq!((report[1].word.line, report[1].word.start_column), (1, 10));
    let s = report[1].suggestion.as_ref().unwrap();
    assert_eq!((s.word.as_str(), s.lang.as_str()), ("the", "en"));

    assert_eq!(report[2].word.word, "hewwo");
    assert_eq!((report[2].word.line, report[2].word.start_column), (1, 13));
    let s = report[2].suggestion.as_ref().unwrap();
    assert_eq!((s.word.as_str(), s.lang.as_str()), ("hello", "en"));
}

#[test]
fn spellcheck_looks_words_up_in_lowercase_and_reports_them_as_written() {
    let report = spellcheck("HELLO World HoLa", &lists());
    assert_eq!(report.len(), 0);
    let report = spellcheck("HEWWO", &lists());
    assert_eq!(report.len(), 1);
    assert_eq!(report[0].word.word, "HEWWO");
    let s = report[0].suggestion.as_ref().unwrap();
    assert_eq!(s.word, "hello");
}

#[test]
fn spellcheck_without_reachable_candidate_reports_no_suggestion() {
    let report = spellcheck("antidisestablishment", &lists());
    assert_eq!(report.len(), 1);
    assert!(report[0].suggestion.is_none());
    let report = spellcheck("anything at all", &[]);
    assert_eq!(report.len(), 3);
    assert!(report.iter().all(|m| m.suggestion.is_none()));
}

#[test]
fn spellcheck_of_clean_or_empty_text_reports_nothing() {
    assert_eq!(spellcheck("", &lists()).len(), 0);
    assert_eq!(spellcheck("hello, world! 123 https://hewwo.example", &lists()).len(), 0);
}
