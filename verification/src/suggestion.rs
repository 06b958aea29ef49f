//! Suggestions for a misspelled word, ranked by edit distance.
use vstd::prelude::*;
use vstd::string::StrSliceExecFns;
use crate::diff::{levenshtein, levenshtein_distance};
use crate::order::{scored_at, sort_by_distance, Scored};
use crate::wordlist::{vocabularies, Vocabulary, Wordlist};

verus! {

/// How far the length of a candidate may lie from the length of the query,
/// in characters.
pub const MAX_LENGTH_DIFFERENCE: usize = 5;

/// A suggestion for a misspelled word: the suggested word and the language
/// of the wordlist it was found in.
#[derive(Debug, Clone)]
pub struct Suggestion {
    pub word: String,
    pub lang: String,
}

/// The mathematical value of a [`Suggestion`].
pub struct Candidate {
    pub word: Seq<char>,
    pub lang: Seq<char>,
}

impl View for Suggestion {
    type V = Candidate;

    open spec fn view(&self) -> Candidate {
        Candidate { word: self.word@, lang: self.lang@ }
    }
}

/// The candidates held by a sequence of suggestions.
pub open spec fn candidates_of(suggestions: Seq<Suggestion>) -> Seq<Candidate> {
    suggestions.map_values(|s: Suggestion| s@)
}

/// Whether the lengths of `query` and `word` differ by at most `limit`.
pub open spec fn within_reach(query: Seq<char>, word: Seq<char>, limit: nat) -> bool {
    if query.len() >= word.len() {
        query.len() - word.len() <= limit
    } else {
        word.len() - query.len() <= limit
    }
}

/// [`within_reach`] of a query, as a predicate on words.
pub open spec fn reach_pred(query: Seq<char>, limit: nat) -> spec_fn(Seq<char>) -> bool {
    |word: Seq<char>| within_reach(query, word, limit)
}

/// Makes a word a candidate of the language `lang`.
pub open spec fn in_language(lang: Seq<char>) -> spec_fn(Seq<char>) -> Candidate {
    |word: Seq<char>| Candidate { word, lang }
}

/// The candidates that the words of one language give: those within reach
/// of the query, in the order of the words.
pub open spec fn candidates_among(
    query: Seq<char>,
    lang: Seq<char>,
    words: Seq<Seq<char>>,
    limit: nat,
) -> Seq<Candidate> {
    words.filter(reach_pred(query, limit)).map_values(in_language(lang))
}

/// The candidates for `query`: those of each wordlist, in the order of the
/// wordlists.
pub open spec fn candidates(query: Seq<char>, lists: Seq<Vocabulary>, limit: nat) -> Seq<
    Candidate,
>
    decreases lists.len(),
{
    if lists.len() == 0 {
        Seq::<Candidate>::empty()
    } else {
        candidates(query, lists.drop_last(), limit) + candidates_among(
            query,
            lists.last().lang,
            lists.last().words,
            limit,
        )
    }
}

/// The edit distance between the query and a candidate's word.
pub open spec fn distance_to(query: Seq<char>, c: Candidate) -> nat {
    levenshtein_distance(query, c.word)
}

/// The candidates at distance `d` from the query, as a predicate.
pub open spec fn at_distance(query: Seq<char>, d: nat) -> spec_fn(Candidate) -> bool {
    |c: Candidate| distance_to(query, c) == d
}

/// Whether the distances from `query` never decrease along `ranked`.
pub open spec fn closest_first(query: Seq<char>, ranked: Seq<Candidate>) -> bool {
    forall|i: int, j: int|
        0 <= i < j < ranked.len() ==> distance_to(query, #[trigger] ranked[i]) <= distance_to(
            query,
            #[trigger] ranked[j],
        )
}

/// Whether `a` and `b` hold, for each distance, the same candidates at that
/// distance in the same order.
pub open spec fn same_at_each_distance(
    query: Seq<char>,
    a: Seq<Candidate>,
    b: Seq<Candidate>,
) -> bool {
    forall|d: nat| a.filter(#[trigger] at_distance(query, d)) == b.filter(at_distance(query, d))
}

/// Whether `ranked` is the ranking of `pool` for `query`: the candidates of
/// `pool`, closest first, with candidates at the same distance in the order
/// in which `pool` holds them.
pub open spec fn is_ranking(query: Seq<char>, pool: Seq<Candidate>, ranked: Seq<Candidate>) -> bool {
    &&& ranked.len() == pool.len()
    &&& closest_first(query, ranked)
    &&& same_at_each_distance(query, ranked, pool)
}

/// The index in `pool` of the candidate closest to `query`, the first of
/// them where several are equally close.
pub open spec fn best_index(query: Seq<char>, pool: Seq<Candidate>) -> int
    decreases pool.len(),
{
    if pool.len() <= 1 {
        0
    } else {
        let i = best_index(query, pool.drop_last());
        if distance_to(query, pool.last()) < distance_to(query, pool[i]) {
            pool.len() - 1
        } else {
            i
        }
    }
}

/// The candidate of `pool` closest to `query`, the first of them where
/// several are equally close; none when the pool is empty.
pub open spec fn best_of(query: Seq<char>, pool: Seq<Candidate>) -> Option<Candidate> {
    if pool.len() == 0 {
        None
    } else {
        Some(pool[best_index(query, pool)])
    }
}

/// The candidates of a list of words that grows by one word.
pub proof fn lemma_candidates_among_push(
    query: Seq<char>,
    lang: Seq<char>,
    words: Seq<Seq<char>>,
    word: Seq<char>,
    limit: nat,
)
    ensures
        candidates_among(query, lang, words.push(word), limit) == if within_reach(
            query,
            word,
            limit,
        ) {
            candidates_among(query, lang, words, limit).push(Candidate { word, lang })
        } else {
            candidates_among(query, lang, words, limit)
        },
{
    words.lemma_filter_push(word, reach_pred(query, limit));
    let kept = words.filter(reach_pred(query, limit));
    assert(kept.push(word).map_values(in_language(lang)) =~= kept.map_values(
        in_language(lang),
    ).push(Candidate { word, lang }));
}

/// The best index lies in the pool, no candidate is closer than the one it
/// points at, and every candidate before it is farther away.
pub proof fn lemma_best_index(query: Seq<char>, pool: Seq<Candidate>)
    requires
        pool.len() > 0,
    ensures
        0 <= best_index(query, pool) < pool.len(),
        forall|j: int|
            0 <= j < pool.len() ==> distance_to(query, pool[best_index(query, pool)])
                <= distance_to(query, #[trigger] pool[j]),
        forall|j: int|
            0 <= j < best_index(query, pool) ==> distance_to(
                query,
                pool[best_index(query, pool)],
            ) < distance_to(query, #[trigger] pool[j]),
    decreases pool.len(),
{
    if pool.len() > 1 {
        let shorter = pool.drop_last();
        lemma_best_index(query, shorter);
        let i = best_index(query, shorter);
        assert(shorter[i] == pool[i]);
        assert forall|j: int| 0 <= j < pool.len() implies distance_to(
            query,
            pool[best_index(query, pool)],
        ) <= distance_to(query, #[trigger] pool[j]) by {
            if j < shorter.len() {
                assert(shorter[j] == pool[j]);
            }
        }
        assert forall|j: int| 0 <= j < best_index(query, pool) implies distance_to(
            query,
            pool[best_index(query, pool)],
        ) < distance_to(query, #[trigger] pool[j]) by {
            if j < shorter.len() {
                assert(shorter[j] == pool[j]);
            }
        }
    }
}

/// The first item that a filter keeps is the first item of the sequence that
/// satisfies the predicate.
pub proof fn lemma_filter_first<A>(s: Seq<A>, pred: spec_fn(A) -> bool, i: int)
    requires
        0 <= i < s.len(),
        pred(s[i]),
        forall|j: int| 0 <= j < i ==> !pred(s[j]),
    ensures
        s.filter(pred).len() > 0,
        s.filter(pred)[0] == s[i],
    decreases s.len(),
{
    reveal(Seq::filter);
    let shorter = s.drop_last();
    if i == s.len() - 1 {
        assert forall|j: int| 0 <= j < shorter.len() implies !pred(#[trigger] shorter[j]) by {
            assert(shorter[j] == s[j]);
        }
        shorter.lemma_all_neg_filter_empty(pred);
    } else {
        assert(shorter[i] == s[i]);
        assert forall|j: int| 0 <= j < i implies !pred(shorter[j]) by {
            assert(shorter[j] == s[j]);
        }
        lemma_filter_first(shorter, pred, i);
    }
}

/// Two sequences that are both closest-first and hold the same candidates at
/// each distance, in the same order, are the same sequence.
pub proof fn lemma_closest_first_unique(query: Seq<char>, a: Seq<Candidate>, b: Seq<Candidate>)
    requires
        closest_first(query, a),
        closest_first(query, b),
        same_at_each_distance(query, a, b),
    ensures
        a == b,
    decreases a.len() + b.len(),
{
    reveal(Seq::filter);
    if a.len() == 0 || b.len() == 0 {
        if a.len() > 0 {
            let d = distance_to(query, a[0]);
            a.lemma_filter_contains(at_distance(query, d), 0);
            assert(a.filter(at_distance(query, d)) == b.filter(at_distance(query, d)));
        }
        if b.len() > 0 {
            let d = distance_to(query, b[0]);
            b.lemma_filter_contains(at_distance(query, d), 0);
            assert(a.filter(at_distance(query, d)) == b.filter(at_distance(query, d)));
        }
        assert(a =~= b);
    } else {
        let m = distance_to(query, a.last());
        let n = distance_to(query, b.last());
        // Each last item occurs in the other sequence, so neither is farther
        // away than the other.
        a.lemma_filter_contains(at_distance(query, m), a.len() - 1);
        assert(a.filter(at_distance(query, m)) == b.filter(at_distance(query, m)));
        b.lemma_filter_contains_rev(at_distance(query, m), a.last());
        let ja = choose|j: int| 0 <= j < b.len() && b[j] == a.last();
        assert(m <= n) by {
            if ja < b.len() - 1 {
                assert(distance_to(query, b[ja]) <= distance_to(query, b[b.len() - 1]));
            }
        }
        b.lemma_filter_contains(at_distance(query, n), b.len() - 1);
        assert(a.filter(at_distance(query, n)) == b.filter(at_distance(query, n)));
        a.lemma_filter_contains_rev(at_distance(query, n), b.last());
        let jb = choose|j: int| 0 <= j < a.len() && a[j] == b.last();
        assert(n <= m) by {
            if jb < a.len() - 1 {
                assert(distance_to(query, a[jb]) <= distance_to(query, a[a.len() - 1]));
            }
        }
        let a0 = a.drop_last();
        let b0 = b.drop_last();
        assert(a.filter(at_distance(query, m)) == a0.filter(at_distance(query, m)).push(
            a.last(),
        ));
        assert(b.filter(at_distance(query, m)) == b0.filter(at_distance(query, m)).push(
            b.last(),
        ));
        let fa = a0.filter(at_distance(query, m));
        let fb = b0.filter(at_distance(query, m));
        assert(fa.push(a.last()).last() == a.last());
        assert(fb.push(b.last()).last() == b.last());
        assert(a.last() == b.last());
        assert(fa.push(a.last()).drop_last() =~= fa);
        assert(fb.push(b.last()).drop_last() =~= fb);
        assert forall|d: nat|
            a0.filter(#[trigger] at_distance(query, d)) == b0.filter(at_distance(query, d)) by {
            assert(a.filter(at_distance(query, d)) == b.filter(at_distance(query, d)));
        }
        assert forall|i: int, j: int| 0 <= i < j < a0.len() implies distance_to(
            query,
            #[trigger] a0[i],
        ) <= distance_to(query, #[trigger] a0[j]) by {
            assert(a0[i] == a[i] && a0[j] == a[j]);
        }
        assert forall|i: int, j: int| 0 <= i < j < b0.len() implies distance_to(
            query,
            #[trigger] b0[i],
        ) <= distance_to(query, #[trigger] b0[j]) by {
            assert(b0[i] == b[i] && b0[j] == b[j]);
        }
        lemma_closest_first_unique(query, a0, b0);
        assert(a =~= a0.push(a.last()));
        assert(b =~= b0.push(b.last()));
    }
}

/// A pool of candidates has at most one ranking: ranking the same pool for
/// the same query twice gives the same sequence.
pub proof fn lemma_ranking_unique(
    query: Seq<char>,
    pool: Seq<Candidate>,
    first: Seq<Candidate>,
    second: Seq<Candidate>,
)
    requires
        is_ranking(query, pool, first),
        is_ranking(query, pool, second),
    ensures
        first == second,
{
    assert forall|d: nat|
        first.filter(#[trigger] at_distance(query, d)) == second.filter(
            at_distance(query, d),
        ) by {
        assert(first.filter(at_distance(query, d)) == pool.filter(at_distance(query, d)));
        assert(second.filter(at_distance(query, d)) == pool.filter(at_distance(query, d)));
    }
    lemma_closest_first_unique(query, first, second);
}

/// Filtering keeps every occurrence of an item that satisfies the predicate
/// and none of an item that does not.
pub proof fn lemma_filter_count<A>(s: Seq<A>, pred: spec_fn(A) -> bool, x: A)
    ensures
        s.filter(pred).to_multiset().count(x) == if pred(x) {
            s.to_multiset().count(x)
        } else {
            0
        },
    decreases s.len(),
{
    s.filter(pred).to_multiset_ensures();
    s.to_multiset_ensures();
    if s.len() == 0 {
        s.lemma_filter_len(pred);
        assert(!s.contains(x));
        assert(!s.filter(pred).contains(x));
    } else {
        let shorter = s.drop_last();
        let last = s.last();
        assert(s == shorter.push(last));
        lemma_filter_count(shorter, pred, x);
        shorter.lemma_filter_push(last, pred);
        shorter.to_multiset_ensures();
        shorter.filter(pred).to_multiset_ensures();
    }
}

/// A ranking rearranges its pool: it holds each candidate as often as the
/// pool does.
pub proof fn lemma_ranking_rearranges(
    query: Seq<char>,
    pool: Seq<Candidate>,
    ranked: Seq<Candidate>,
)
    requires
        is_ranking(query, pool, ranked),
    ensures
        ranked.to_multiset() == pool.to_multiset(),
{
    assert forall|c: Candidate| ranked.to_multiset().count(c) == pool.to_multiset().count(c) by {
        let d = distance_to(query, c);
        lemma_filter_count(ranked, at_distance(query, d), c);
        lemma_filter_count(pool, at_distance(query, d), c);
        assert(ranked.filter(at_distance(query, d)) == pool.filter(at_distance(query, d)));
    }
    assert(ranked.to_multiset() =~= pool.to_multiset());
}

/// A ranking begins with the best candidate of its pool.
pub proof fn lemma_ranking_begins_with_best(
    query: Seq<char>,
    pool: Seq<Candidate>,
    ranked: Seq<Candidate>,
)
    requires
        is_ranking(query, pool, ranked),
    ensures
        best_of(query, pool) == if ranked.len() == 0 {
            None
        } else {
            Some(ranked[0])
        },
{
    if pool.len() > 0 {
        lemma_best_index(query, pool);
        let i = best_index(query, pool);
        let least = distance_to(query, pool[i]);
        let head = distance_to(query, ranked[0]);
        // The best candidate occurs in the ranking, and the head of the
        // ranking occurs in the pool: they are equally close.
        pool.lemma_filter_contains(at_distance(query, least), i);
        assert(ranked.filter(at_distance(query, least)) == pool.filter(
            at_distance(query, least),
        ));
        ranked.lemma_filter_contains_rev(at_distance(query, least), pool[i]);
        let k = choose|k: int| 0 <= k < ranked.len() && ranked[k] == pool[i];
        assert(head <= least) by {
            if k > 0 {
                assert(distance_to(query, ranked[0]) <= distance_to(query, ranked[k]));
            }
        }
        ranked.lemma_filter_contains(at_distance(query, head), 0);
        assert(ranked.filter(at_distance(query, head)) == pool.filter(at_distance(query, head)));
        pool.lemma_filter_contains_rev(at_distance(query, head), ranked[0]);
        let j = choose|j: int| 0 <= j < pool.len() && pool[j] == ranked[0];
        assert(least <= head) by {
            assert(distance_to(query, pool[i]) <= distance_to(query, pool[j]));
        }
        lemma_filter_first(pool, at_distance(query, least), i);
        lemma_filter_first(ranked, at_distance(query, least), 0);
    }
}

/// Where no word of any wordlist is within reach of the query, there is no
/// candidate, whatever the distances are.
pub proof fn lemma_out_of_reach(query: Seq<char>, lists: Seq<Vocabulary>, limit: nat)
    requires
        forall|i: int, j: int|
            0 <= i < lists.len() && 0 <= j < lists[i].words.len() ==> !within_reach(
                query,
                #[trigger] lists[i].words[j],
                limit,
            ),
    ensures
        candidates(query, lists, limit).len() == 0,
    decreases lists.len(),
{
    if lists.len() > 0 {
        let shorter = lists.drop_last();
        assert forall|i: int, j: int|
            0 <= i < shorter.len() && 0 <= j < shorter[i].words.len() implies !within_reach(
            query,
            #[trigger] shorter[i].words[j],
            limit,
        ) by {
            assert(shorter[i] == lists[i]);
        }
        lemma_out_of_reach(query, shorter, limit);
        let words = lists.last().words;
        assert forall|j: int| 0 <= j < words.len() implies !reach_pred(query, limit)(
            #[trigger] words[j],
        ) by {
            assert(words[j] == lists[lists.len() - 1].words[j]);
        }
        words.lemma_all_neg_filter_empty(reach_pred(query, limit));
    }
}

/// Where every word of every wordlist is out of reach of the query, the
/// ranking is empty: closeness in spelling plays no part.
pub proof fn lemma_out_of_reach_ranking(
    query: Seq<char>,
    lists: Seq<Vocabulary>,
    limit: nat,
    ranked: Seq<Candidate>,
)
    requires
        forall|i: int, j: int|
            0 <= i < lists.len() && 0 <= j < lists[i].words.len() ==> !within_reach(
                query,
                #[trigger] lists[i].words[j],
                limit,
            ),
        is_ranking(query, candidates(query, lists, limit), ranked),
    ensures
        ranked.len() == 0,
{
    lemma_out_of_reach(query, lists, limit);
}

/// The candidate that a scored entry points at.
pub open spec fn candidate_at(lists: Seq<Vocabulary>, e: Scored) -> Candidate {
    Candidate { word: lists[e.list as int].words[e.word as int], lang: lists[e.list as int].lang }
}

/// [`candidate_at`] in given wordlists, as a function of the entry.
pub open spec fn pointing(lists: Seq<Vocabulary>) -> spec_fn(Scored) -> Candidate {
    |e: Scored| candidate_at(lists, e)
}

/// Whether an entry points at a word of the wordlists and carries that
/// word's distance from the query.
pub open spec fn sound(query: Seq<char>, lists: Seq<Vocabulary>, e: Scored) -> bool {
    &&& e.list < lists.len()
    &&& e.word < lists[e.list as int].words.len()
    &&& e.distance == distance_to(query, candidate_at(lists, e))
}

/// Picking the entries of one distance and then looking up their candidates
/// gives the candidates at that distance.
proof fn lemma_scored_candidates(query: Seq<char>, lists: Seq<Vocabulary>, s: Seq<Scored>, d: nat)
    requires
        forall|k: int| 0 <= k < s.len() ==> sound(query, lists, #[trigger] s[k]),
    ensures
        s.filter(scored_at(d)).map_values(pointing(lists)) == s.map_values(
            pointing(lists),
        ).filter(at_distance(query, d)),
    decreases s.len(),
{
    reveal(Seq::filter);
    if s.len() == 0 {
        assert(s.filter(scored_at(d)).map_values(pointing(lists)) =~= s.map_values(
            pointing(lists),
        ).filter(at_distance(query, d)));
    } else {
        let shorter = s.drop_last();
        let last = s.last();
        assert forall|k: int| 0 <= k < shorter.len() implies sound(
            query,
            lists,
            #[trigger] shorter[k],
        ) by {
            assert(shorter[k] == s[k]);
        }
        lemma_scored_candidates(query, lists, shorter, d);
        assert(s == shorter.push(last));
        assert(sound(query, lists, s[s.len() - 1]));
        let looked = shorter.map_values(pointing(lists));
        assert(s.map_values(pointing(lists)) =~= looked.push(candidate_at(lists, last)));
        shorter.lemma_filter_push(last, scored_at(d));
        looked.lemma_filter_push(candidate_at(lists, last), at_distance(query, d));
        let picked = shorter.filter(scored_at(d));
        assert(picked.push(last).map_values(pointing(lists)) =~= picked.map_values(
            pointing(lists),
        ).push(candidate_at(lists, last)));
    }
}

/// Scores the words of the wordlists that are within reach of the query, in
/// the order of the wordlists and of their words.
fn score_candidates(misspelled_word: &str, wordlists: &[Wordlist], limit: usize) -> (entries: Vec<
    Scored,
>)
    ensures
        entries@.map_values(pointing(vocabularies(wordlists@))) == candidates(
            misspelled_word@,
            vocabularies(wordlists@),
            limit as nat,
        ),
        forall|k: int|
            0 <= k < entries.len() ==> sound(
                misspelled_word@,
                vocabularies(wordlists@),
                #[trigger] entries[k],
            ),
{
    let ghost query = misspelled_word@;
    let ghost lists = vocabularies(wordlists@);
    let query_len: usize = misspelled_word.unicode_len();
    let mut entries: Vec<Scored> = Vec::new();
    let mut li: usize = 0;
    proof {
        assert(entries@.map_values(pointing(lists)) =~= candidates(
            query,
            lists.take(0),
            limit as nat,
        ));
    }
    while li < wordlists.len()
        invariant
            li <= wordlists.len(),
            query == misspelled_word@,
            lists == vocabularies(wordlists@),
            query_len == query.len(),
            entries@.map_values(pointing(lists)) == candidates(
                query,
                lists.take(li as int),
                limit as nat,
            ),
            forall|k: int| 0 <= k < entries.len() ==> sound(query, lists, #[trigger] entries[k]),
        decreases wordlists.len() - li,
    {
        let list = &wordlists[li];
        let ghost done = entries@.map_values(pointing(lists));
        let ghost lang = lists[li as int].lang;
        let ghost words = lists[li as int].words;
        let mut wi: usize = 0;
        proof {
            reveal(Seq::filter);
            assert(lists[li as int] == list@);
            assert(entries@.map_values(pointing(lists)) =~= done + candidates_among(
                query,
                lang,
                words.take(0),
                limit as nat,
            ));
        }
        while wi < list.words.len()
            invariant
                wi <= list.words.len(),
                li < wordlists.len(),
                query == misspelled_word@,
                lists == vocabularies(wordlists@),
                query_len == query.len(),
                list == wordlists[li as int],
                lists[li as int] == list@,
                lang == list@.lang,
                words == list@.words,
                entries@.map_values(pointing(lists)) == done + candidates_among(
                    query,
                    lang,
                    words.take(wi as int),
                    limit as nat,
                ),
                forall|k: int|
                    0 <= k < entries.len() ==> sound(query, lists, #[trigger] entries[k]),
            decreases list.words.len() - wi,
        {
            let word = &list.words[wi];
            let word_len: usize = word.as_str().unicode_len();
            let gap: usize = if query_len >= word_len {
                query_len - word_len
            } else {
                word_len - query_len
            };
            proof {
                assert(words[wi as int] == word@);
                assert(words.take(wi + 1) == words.take(wi as int).push(word@));
                lemma_candidates_among_push(query, lang, words.take(wi as int), word@, limit as nat);
            }
            if gap <= limit {
                let distance = levenshtein(misspelled_word, word.as_str());
                let entry = Scored { distance, list: li, word: wi };
                proof {
                    assert(candidate_at(lists, entry) == Candidate { word: word@, lang });
                    assert(entries@.push(entry).map_values(pointing(lists)) =~= entries@.map_values(
                        pointing(lists),
                    ).push(candidate_at(lists, entry)));
                }
                entries.push(entry);
            }
            wi += 1;
        }
        proof {
            assert(words.take(wi as int) == words);
            assert(lists.take(li + 1).drop_last() == lists.take(li as int));
            assert(lists.take(li + 1).last() == lists[li as int]);
        }
        li += 1;
    }
    proof {
        assert(lists.take(li as int) == lists);
    }
    entries
}

/// Ranks the candidates for a misspelled word, with a given limit on how far
/// a candidate's length may lie from the length of the misspelled word.
///
/// Every word of every wordlist whose length is within the limit is a
/// candidate. The result holds each candidate once, closest first by edit
/// distance; candidates at the same distance keep the order of the wordlists
/// and of the words within them.
pub fn get_suggestions_within(misspelled_word: &str, wordlists: &[Wordlist], limit: usize) -> (ranked:
    Vec<Suggestion>)
    ensures
        is_ranking(
            misspelled_word@,
            candidates(misspelled_word@, vocabularies(wordlists@), limit as nat),
            candidates_of(ranked@),
        ),
{
    let ghost query = misspelled_word@;
    let ghost lists = vocabularies(wordlists@);
    let mut entries = score_candidates(misspelled_word, wordlists, limit);
    let ghost unsorted = entries@;
    sort_by_distance(&mut entries);
    let ghost sorted = entries@;
    proof {
        assert forall|k: int| 0 <= k < sorted.len() implies sound(
            query,
            lists,
            #[trigger] sorted[k],
        ) by {
            let d = sorted[k].distance as nat;
            sorted.lemma_filter_contains(scored_at(d), k);
            assert(sorted.filter(scored_at(d)) == unsorted.filter(scored_at(d)));
            unsorted.lemma_filter_contains_rev(scored_at(d), sorted[k]);
        }
    }
    let mut ranked: Vec<Suggestion> = Vec::new();
    let mut k: usize = 0;
    while k < entries.len()
        invariant
            k <= entries.len(),
            entries@ == sorted,
            lists == vocabularies(wordlists@),
            forall|i: int| 0 <= i < sorted.len() ==> sound(query, lists, #[trigger] sorted[i]),
            candidates_of(ranked@) == sorted.take(k as int).map_values(pointing(lists)),
        decreases entries.len() - k,
    {
        let entry = entries[k];
        proof {
            assert(sound(query, lists, sorted[k as int]));
            assert(lists[entry.list as int] == wordlists[entry.list as int]@);
        }
        let list = &wordlists[entry.list];
        let suggestion = Suggestion {
            word: list.words[entry.word].clone(),
            lang: list.lang.clone(),
        };
        proof {
            assert(suggestion@ == candidate_at(lists, entry));
            assert(sorted.take(k + 1) == sorted.take(k as int).push(entry));
            assert(candidates_of(ranked@.push(suggestion)) =~= candidates_of(ranked@).push(
                suggestion@,
            ));
            assert(sorted.take(k as int).push(entry).map_values(pointing(lists)) =~= sorted.take(
                k as int,
            ).map_values(pointing(lists)).push(candidate_at(lists, entry)));
        }
        ranked.push(suggestion);
        k += 1;
    }
    proof {
        assert(sorted.take(k as int) == sorted);
        let pool = unsorted.map_values(pointing(lists));
        let out = candidates_of(ranked@);
        assert forall|i: int, j: int| 0 <= i < j < out.len() implies distance_to(
            query,
            #[trigger] out[i],
        ) <= distance_to(query, #[trigger] out[j]) by {
            assert(sound(query, lists, sorted[i]) && sound(query, lists, sorted[j]));
        }
        assert forall|d: nat|
            out.filter(#[trigger] at_distance(query, d)) == pool.filter(
                at_distance(query, d),
            ) by {
            lemma_scored_candidates(query, lists, sorted, d);
            lemma_scored_candidates(query, lists, unsorted, d);
            assert(sorted.filter(scored_at(d)) == unsorted.filter(scored_at(d)));
        }
    }
    ranked
}

/// Ranks the candidates for a misspelled word: the words of the wordlists
/// whose length lies within [`MAX_LENGTH_DIFFERENCE`] characters of its own,
/// closest first by edit distance, equally close ones in the order of the
/// wordlists and of their words.
pub fn get_suggestions(misspelled_word: &str, wordlists: &[Wordlist]) -> (ranked: Vec<Suggestion>)
    ensures
        is_ranking(
            misspelled_word@,
            candidates(misspelled_word@, vocabularies(wordlists@), MAX_LENGTH_DIFFERENCE as nat),
            candidates_of(ranked@),
        ),
{
    get_suggestions_within(misspelled_word, wordlists, MAX_LENGTH_DIFFERENCE)
}

/// The best suggestion for a misspelled word: the candidate closest to it,
/// the first of them where several are equally close, or nothing where no
/// word is within reach.
pub fn get_best_suggestion(misspelled_word: &str, wordlists: &[Wordlist]) -> (best: Option<
    Suggestion,
>)
    ensures
        match best {
            Some(suggestion) => Some(suggestion@),
            None => None,
        } == best_of(
            misspelled_word@,
            candidates(misspelled_word@, vocabularies(wordlists@), MAX_LENGTH_DIFFERENCE as nat),
        ),
{
    let mut ranked = get_suggestions(misspelled_word, wordlists);
    proof {
        lemma_ranking_begins_with_best(
            misspelled_word@,
            candidates(misspelled_word@, vocabularies(wordlists@), MAX_LENGTH_DIFFERENCE as nat),
            candidates_of(ranked@),
        );
    }
    if ranked.len() == 0 {
        None
    } else {
        Some(ranked.swap_remove(0))
    }
}

} // verus!
