//! Checking a text against wordlists.
use vstd::prelude::*;
use crate::chars::{lowercase, to_lowercase};
use crate::iter::{
    get_words_from_str, lemma_words_in_reading_order, precedes, tokens_of, words_in_text,
    PositionedWord, Token,
};
use crate::suggestion::{
    best_of, candidates, get_best_suggestion, Candidate, Suggestion, MAX_LENGTH_DIFFERENCE,
};
use crate::wordlist::{vocabularies, Vocabulary, Wordlist};

verus! {

/// A misspelled word of a text, with the best suggestion for it where there
/// is one.
#[derive(Debug)]
pub struct Misspelling {
    /// The word as it stands in the text, and where.
    pub word: PositionedWord,
    /// The best suggestion for the word in lowercase.
    pub suggestion: Option<Suggestion>,
}

/// The mathematical value of a [`Misspelling`].
pub struct Finding {
    pub token: Token,
    pub suggestion: Option<Candidate>,
}

/// The candidate that an optional suggestion stands for.
pub open spec fn candidate_in(suggestion: Option<Suggestion>) -> Option<Candidate> {
    match suggestion {
        Some(s) => Some(s@),
        None => None,
    }
}

impl View for Misspelling {
    type V = Finding;

    open spec fn view(&self) -> Finding {
        Finding { token: self.word@, suggestion: candidate_in(self.suggestion) }
    }
}

/// The findings held by a sequence of misspellings.
pub open spec fn findings_of(report: Seq<Misspelling>) -> Seq<Finding> {
    report.map_values(|m: Misspelling| m@)
}

/// Whether some wordlist holds `word`, letter for letter.
pub open spec fn known(word: Seq<char>, lists: Seq<Vocabulary>) -> bool {
    exists|i: int| 0 <= i < lists.len() && (#[trigger] lists[i]).words.contains(word)
}

/// What the check says of a word that is already in lowercase: nothing when
/// some wordlist holds it, and otherwise the best candidate for it, if any.
pub open spec fn judged(word: Seq<char>, lists: Seq<Vocabulary>) -> Option<Option<Candidate>> {
    if known(word, lists) {
        None
    } else {
        Some(best_of(word, candidates(word, lists, MAX_LENGTH_DIFFERENCE as nat)))
    }
}

/// Whether a token is misspelled: no wordlist holds its word in lowercase.
pub open spec fn misspelled(lists: Seq<Vocabulary>) -> spec_fn(Token) -> bool {
    |t: Token| !known(lowercase(t.word), lists)
}

/// The finding for a misspelled token: the token with the best candidate for
/// its word in lowercase.
pub open spec fn finding_for(lists: Seq<Vocabulary>) -> spec_fn(Token) -> Finding {
    |t: Token|
        Finding {
            token: t,
            suggestion: best_of(
                lowercase(t.word),
                candidates(lowercase(t.word), lists, MAX_LENGTH_DIFFERENCE as nat),
            ),
        }
}

/// The findings for a sequence of tokens: one for each misspelled token, in
/// the order of the tokens.
pub open spec fn misspellings(tokens: Seq<Token>, lists: Seq<Vocabulary>) -> Seq<Finding> {
    tokens.filter(misspelled(lists)).map_values(finding_for(lists))
}

/// The findings for a sequence of tokens that grows by one token.
pub proof fn lemma_misspellings_push(tokens: Seq<Token>, t: Token, lists: Seq<Vocabulary>)
    ensures
        misspellings(tokens.push(t), lists) == match judged(lowercase(t.word), lists) {
            None => misspellings(tokens, lists),
            Some(suggestion) => misspellings(tokens, lists).push(Finding { token: t, suggestion }),
        },
{
    tokens.lemma_filter_push(t, misspelled(lists));
    let bad = tokens.filter(misspelled(lists));
    assert(bad.push(t).map_values(finding_for(lists)) =~= bad.map_values(finding_for(lists)).push(
        finding_for(lists)(t),
    ));
}

/// Tokens that come in reading order give findings in reading order.
pub proof fn lemma_misspellings_in_reading_order(tokens: Seq<Token>, lists: Seq<Vocabulary>)
    requires
        forall|i: int, j: int|
            0 <= i < j < tokens.len() ==> precedes(#[trigger] tokens[i], #[trigger] tokens[j]),
    ensures
        forall|i: int, j: int|
            0 <= i < j < misspellings(tokens, lists).len() ==> precedes(
                (#[trigger] misspellings(tokens, lists)[i]).token,
                (#[trigger] misspellings(tokens, lists)[j]).token,
            ),
        forall|i: int|
            0 <= i < misspellings(tokens, lists).len() ==> tokens.contains(
                (#[trigger] misspellings(tokens, lists)[i]).token,
            ),
    decreases tokens.len(),
{
    reveal(Seq::filter);
    if tokens.len() > 0 {
        let shorter = tokens.drop_last();
        let last = tokens.last();
        assert(tokens == shorter.push(last));
        assert forall|i: int, j: int| 0 <= i < j < shorter.len() implies precedes(
            #[trigger] shorter[i],
            #[trigger] shorter[j],
        ) by {
            assert(shorter[i] == tokens[i] && shorter[j] == tokens[j]);
        }
        lemma_misspellings_in_reading_order(shorter, lists);
        lemma_misspellings_push(shorter, last, lists);
        let before = misspellings(shorter, lists);
        let now = misspellings(tokens, lists);
        assert forall|i: int| 0 <= i < now.len() implies tokens.contains(
            (#[trigger] now[i]).token,
        ) by {
            if i < before.len() {
                assert(now[i] == before[i]);
                assert(shorter.contains(before[i].token));
                let k = choose|k: int| 0 <= k < shorter.len() && shorter[k] == before[i].token;
                assert(tokens[k] == before[i].token);
            } else {
                assert(tokens[tokens.len() - 1] == last);
            }
        }
        assert forall|i: int, j: int| 0 <= i < j < now.len() implies precedes(
            (#[trigger] now[i]).token,
            (#[trigger] now[j]).token,
        ) by {
            assert(now[i] == before[i]);
            if j < before.len() {
                assert(now[j] == before[j]);
            } else {
                assert(shorter.contains(before[i].token));
                let k = choose|k: int| 0 <= k < shorter.len() && shorter[k] == before[i].token;
                assert(precedes(tokens[k], tokens[tokens.len() - 1]));
            }
        }
    }
}

/// Whether some wordlist holds `word`, letter for letter.
pub fn spelled_correctly(word: &str, wordlists: &[Wordlist]) -> (ok: bool)
    ensures
        ok == known(word@, vocabularies(wordlists@)),
{
    let mut i: usize = 0;
    while i < wordlists.len()
        invariant
            i <= wordlists.len(),
            forall|k: int| 0 <= k < i ==> !(#[trigger] vocabularies(wordlists@)[k]).words.contains(word@),
        decreases wordlists.len() - i,
    {
        if wordlists[i].contains(word) {
            assert(vocabularies(wordlists@)[i as int] == wordlists[i as int]@);
            return true;
        }
        assert(vocabularies(wordlists@)[i as int] == wordlists[i as int]@);
        i += 1;
    }
    false
}

/// Checks one word that is already in lowercase: nothing when some wordlist
/// holds it, and otherwise the best suggestion for it, if there is one.
pub fn check_word(word: &str, wordlists: &[Wordlist]) -> (verdict: Option<Option<Suggestion>>)
    ensures
        match verdict {
            None => None,
            Some(suggestion) => Some(candidate_in(suggestion)),
        } == judged(word@, vocabularies(wordlists@)),
{
    if spelled_correctly(word, wordlists) {
        None
    } else {
        Some(get_best_suggestion(word, wordlists))
    }
}

/// Checks a text against the wordlists.
///
/// Every word of the text is put in lowercase and looked up in all the
/// wordlists; a word that none of them holds is reported as it stands in the
/// text, with the best suggestion for its lowercase form. The report follows
/// the reading order of the text.
pub fn spellcheck(text: &str, wordlists: &[Wordlist]) -> (report: Vec<Misspelling>)
    ensures
        findings_of(report@) == misspellings(words_in_text(text@), vocabularies(wordlists@)),
        forall|i: int, j: int|
            0 <= i < j < report.len() ==> precedes(
                (#[trigger] report[i]).word@,
                (#[trigger] report[j]).word@,
            ),
{
    let ghost lists = vocabularies(wordlists@);
    let words = get_words_from_str(text);
    let ghost tokens = tokens_of(words@);
    let mut report: Vec<Misspelling> = Vec::new();
    proof {
        reveal(Seq::filter);
        assert(findings_of(report@) =~= misspellings(tokens.take(0), lists));
    }
    for word in it: words.into_iter()
        invariant
            lists == vocabularies(wordlists@),
            tokens == tokens_of(it.seq()),
            findings_of(report@) == misspellings(tokens.take(it.index() as int), lists),
    {
        let ghost at = it.index() as int;
        proof {
            assert(tokens[at] == word@);
            assert(tokens.take(at + 1) == tokens.take(at).push(word@));
            lemma_misspellings_push(tokens.take(at), word@, lists);
        }
        let lowered = to_lowercase(word.word.as_str());
        match check_word(lowered.as_str(), wordlists) {
            None => {},
            Some(suggestion) => {
                let entry = Misspelling { word, suggestion };
                proof {
                    assert(findings_of(report@.push(entry)) =~= findings_of(report@).push(entry@));
                }
                report.push(entry);
            },
        }
    }
    proof {
        assert(tokens.take(tokens.len() as int) == tokens);
        lemma_words_in_reading_order(text@);
        lemma_misspellings_in_reading_order(tokens, lists);
        assert forall|i: int, j: int| 0 <= i < j < report.len() implies precedes(
            (#[trigger] report[i]).word@,
            (#[trigger] report[j]).word@,
        ) by {
            assert(findings_of(report@)[i] == report[i]@);
            assert(findings_of(report@)[j] == report[j]@);
        }
    }
    report
}

} // verus!
