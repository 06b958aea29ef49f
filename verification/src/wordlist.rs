//! Wordlists: the known-correct words of one language.
use vstd::prelude::*;
use vstd::string::StringExecFns;
use crate::chars::chars_of;
use crate::text::{contents, lines, split_lines};

verus! {

/// The correct spellings of one language.
#[derive(Debug)]
pub struct Wordlist {
    /// The language or locale that the words belong to, such as `en_us`.
    pub lang: String,
    /// The words, in the order in which they were listed.
    pub words: Vec<String>,
}

/// The mathematical value of a [`Wordlist`].
pub struct Vocabulary {
    pub lang: Seq<char>,
    pub words: Seq<Seq<char>>,
}

/// The character sequences of a sequence of strings.
pub open spec fn spellings(words: Seq<String>) -> Seq<Seq<char>> {
    words.map_values(|w: String| w@)
}

/// The vocabularies of a sequence of wordlists.
pub open spec fn vocabularies(lists: Seq<Wordlist>) -> Seq<Vocabulary> {
    lists.map_values(|list: Wordlist| list@)
}

impl View for Wordlist {
    type V = Vocabulary;

    open spec fn view(&self) -> Vocabulary {
        Vocabulary { lang: self.lang@, words: spellings(self.words@) }
    }
}

impl Wordlist {
    /// Whether `word` is one of the words of this list, letter for letter.
    pub fn contains(&self, word: &str) -> (found: bool)
        ensures
            found == self@.words.contains(word@),
    {
        let wanted = word.to_owned();
        let mut i: usize = 0;
        while i < self.words.len()
            invariant
                i <= self.words.len(),
                wanted@ == word@,
                forall|k: int| 0 <= k < i ==> spellings(self.words@)[k] != word@,
            decreases self.words.len() - i,
        {
            if self.words[i] == wanted {
                assert(spellings(self.words@)[i as int] == word@);
                return true;
            }
            i += 1;
        }
        false
    }
}

/// Whether a line of a wordlist file is a comment: it begins with `//`.
pub open spec fn is_comment(line: Seq<char>) -> bool {
    line.len() >= 2 && line[0] == '/' && line[1] == '/'
}

/// Whether a line of a wordlist file lists a word: it is neither blank nor a
/// comment.
pub open spec fn is_entry(line: Seq<char>) -> bool {
    line.len() > 0 && !is_comment(line)
}

/// [`is_entry`] as a predicate.
pub open spec fn entry_pred() -> spec_fn(Seq<char>) -> bool {
    |line: Seq<char>| is_entry(line)
}

/// Line `i` of `all` without its line ending: a carriage return that stands
/// right before the newline belongs to the ending. The last line has no
/// newline after it and is taken as it stands.
pub open spec fn without_line_ending(all: Seq<Seq<char>>, i: int) -> Seq<char> {
    let line = all[i];
    if i + 1 < all.len() && line.len() > 0 && line.last() == '\r' {
        line.drop_last()
    } else {
        line
    }
}

/// The lines of a wordlist file, without their line endings.
pub open spec fn file_lines(content: Seq<char>) -> Seq<Seq<char>> {
    let all = lines(content);
    Seq::new(all.len(), |i: int| without_line_ending(all, i))
}

/// The words that a wordlist file lists: its lines, but for the blank ones
/// and the comments.
pub open spec fn listed_words(content: Seq<char>) -> Seq<Seq<char>> {
    file_lines(content).filter(entry_pred())
}

/// Where the wordlist of the language `lang` is kept.
pub open spec fn path_of(lang: Seq<char>) -> Seq<char> {
    "./wordlists/"@ + lang + ".txt"@
}

/// The path of the file that holds the wordlist of the language `lang`.
pub fn wordlist_path(lang: &str) -> (path: String)
    ensures
        path@ == path_of(lang@),
{
    let mut path = "./wordlists/".to_owned();
    path.append(lang);
    path.append(".txt");
    path
}

/// The first `end` characters of `line`, as a string.
fn string_of_prefix(line: &Vec<char>, end: usize) -> (out: String)
    requires
        end <= line.len(),
    ensures
        out@ == line@.take(end as int),
{
    let mut out = String::new();
    let mut i: usize = 0;
    while i < end
        invariant
            i <= end <= line.len(),
            out@ == line@.take(i as int),
        decreases end - i,
    {
        out.push(line[i]);
        proof {
            assert(line@.take(i + 1) == line@.take(i as int).push(line@[i as int]));
        }
        i += 1;
    }
    out
}

/// Builds the wordlist of the language `lang` from the content of its file:
/// one word per line, blank lines and lines that begin with `//` left out.
pub fn load(lang: &str, content: &str) -> (list: Wordlist)
    ensures
        list@.lang == lang@,
        list@.words == listed_words(content@),
{
    let text = chars_of(content);
    let all = split_lines(&text);
    let ghost cleaned = file_lines(content@);
    let mut words: Vec<String> = Vec::new();
    let mut i: usize = 0;
    proof {
        reveal(Seq::filter);
        assert(spellings(words@) =~= cleaned.take(0).filter(entry_pred()));
    }
    while i < all.len()
        invariant
            i <= all.len(),
            contents(all@) == lines(content@),
            cleaned == file_lines(content@),
            spellings(words@) == cleaned.take(i as int).filter(entry_pred()),
        decreases all.len() - i,
    {
        let line = &all[i];
        let mut end: usize = line.len();
        if i + 1 < all.len() && end > 0 && line[end - 1] == '\r' {
            end = end - 1;
        }
        let ghost entry = line@.take(end as int);
        proof {
            assert(contents(all@)[i as int] == line@);
            assert(line@.take(line.len() as int) == line@);
            assert(entry == cleaned[i as int]);
            assert(cleaned.take(i + 1) == cleaned.take(i as int).push(entry));
            cleaned.take(i as int).lemma_filter_push(entry, entry_pred());
        }
        let comment = end >= 2 && line[0] == '/' && line[1] == '/';
        if end > 0 && !comment {
            let word = string_of_prefix(line, end);
            proof {
                assert(spellings(words@.push(word)) =~= spellings(words@).push(word@));
            }
            words.push(word);
        }
        i += 1;
    }
    proof {
        assert(cleaned.take(i as int) == cleaned);
    }
    Wordlist { lang: lang.to_owned(), words }
}

/// Builds one wordlist from each pair of a language and the content of that
/// language's wordlist file, in the order given.
pub fn load_multiple(sources: &[(String, String)]) -> (lists: Vec<Wordlist>)
    ensures
        lists.len() == sources.len(),
        forall|i: int|
            0 <= i < sources.len() ==> {
                &&& (#[trigger] lists[i])@.lang == sources[i].0@
                &&& lists[i]@.words == listed_words(sources[i].1@)
            },
{
    let mut lists: Vec<Wordlist> = Vec::new();
    let mut i: usize = 0;
    while i < sources.len()
        invariant
            i <= sources.len(),
            lists.len() == i,
            forall|k: int|
                0 <= k < i ==> {
                    &&& (#[trigger] lists[k])@.lang == sources[k].0@
                    &&& lists[k]@.words == listed_words(sources[k].1@)
                },
        decreases sources.len() - i,
    {
        let list = load(sources[i].0.as_str(), sources[i].1.as_str());
        lists.push(list);
        i += 1;
    }
    lists
}

} // verus!
