//! Position-aware word extraction from raw text.
use vstd::prelude::*;
use crate::chars::{chars_of, classify_all, spelled, symbols_of, Symbol};
use crate::text::{chunks, contents, lemma_chunks_shape, lines, split_chunks, split_lines};

verus! {

/// A word together with the place where it was found.
#[derive(Debug)]
pub struct PositionedWord {
    /// The word, with everything but letters removed.
    pub word: String,
    /// The zero-based index of the line that holds the word.
    pub line: usize,
    /// The zero-based column at which the word's chunk begins.
    pub start_column: usize,
}

/// The mathematical value of a [`PositionedWord`].
pub struct Token {
    pub word: Seq<char>,
    pub line: nat,
    pub start_column: nat,
}

impl View for PositionedWord {
    type V = Token;

    open spec fn view(&self) -> Token {
        Token { word: self.word@, line: self.line as nat, start_column: self.start_column as nat }
    }
}

/// The tokens held by a sequence of positioned words.
pub open spec fn tokens_of(words: Seq<PositionedWord>) -> Seq<Token> {
    words.map_values(|w: PositionedWord| w@)
}

/// Whether a character survives the removal of punctuation.
pub open spec fn kept(x: Symbol) -> bool {
    x.alphabetic || x.whitespace
}

/// [`kept`] as a predicate.
pub open spec fn kept_pred() -> spec_fn(Symbol) -> bool {
    |x: Symbol| kept(x)
}

/// `s` without the characters that are neither alphabetic nor whitespace.
pub open spec fn stripped(s: Seq<Symbol>) -> Seq<char> {
    spelled(s.filter(kept_pred()))
}

/// Whether the scheme separator `://` stands at index `i` of `chunk`.
pub open spec fn scheme_separator_at(chunk: Seq<Symbol>, i: int) -> bool {
    &&& 0 <= i
    &&& i + 2 < chunk.len()
    &&& chunk[i].value == ':'
    &&& chunk[i + 1].value == '/'
    &&& chunk[i + 2].value == '/'
}

/// Whether `chunk` carries a URL: it holds the scheme separator `://`.
pub open spec fn is_url(chunk: Seq<Symbol>) -> bool {
    exists|i: int| scheme_separator_at(chunk, i)
}

/// The word that a chunk stands for: nothing for a URL, and otherwise the
/// chunk without its punctuation. An empty word means the chunk is discarded.
pub open spec fn word_of(chunk: Seq<Symbol>) -> Seq<char> {
    if is_url(chunk) {
        Seq::<char>::empty()
    } else {
        stripped(chunk)
    }
}

/// Where the column cursor stands after `chunks`: each chunk moves it by its
/// own length and one separator, whether or not the chunk gave a word.
pub open spec fn cursor_after(chunks: Seq<Seq<Symbol>>) -> nat
    decreases chunks.len(),
{
    if chunks.len() == 0 {
        0
    } else {
        cursor_after(chunks.drop_last()) + chunks.last().len() + 1
    }
}

/// The tokens that the chunks of line number `line` give, left to right.
pub open spec fn words_in_chunks(chunks: Seq<Seq<Symbol>>, line: nat) -> Seq<Token>
    decreases chunks.len(),
{
    if chunks.len() == 0 {
        Seq::<Token>::empty()
    } else {
        let before = words_in_chunks(chunks.drop_last(), line);
        let word = word_of(chunks.last());
        if word.len() == 0 {
            before
        } else {
            before.push(Token { word, line, start_column: cursor_after(chunks.drop_last()) })
        }
    }
}

/// The tokens of the line `text`, which is line number `line`.
pub open spec fn words_in_line(text: Seq<Symbol>, line: nat) -> Seq<Token> {
    words_in_chunks(chunks(text), line)
}

/// The tokens of the given lines, the first of which is line 0.
pub open spec fn words_in_lines(lines: Seq<Seq<Symbol>>) -> Seq<Token>
    decreases lines.len(),
{
    if lines.len() == 0 {
        Seq::<Token>::empty()
    } else {
        words_in_lines(lines.drop_last()) + words_in_line(lines.last(), (lines.len() - 1) as nat)
    }
}

/// The lines of a text, each character with its Unicode classes.
pub open spec fn symbol_lines(text: Seq<char>) -> Seq<Seq<Symbol>> {
    lines(text).map_values(|line: Seq<char>| symbols_of(line))
}

/// The tokens of a text: those of its lines, in line order.
pub open spec fn words_in_text(text: Seq<char>) -> Seq<Token> {
    words_in_lines(symbol_lines(text))
}

/// Whether `a` comes strictly before `b`: on an earlier line, or on the same
/// line at a smaller column.
pub open spec fn precedes(a: Token, b: Token) -> bool {
    a.line < b.line || (a.line == b.line && a.start_column < b.start_column)
}

/// Removing punctuation from a text that grows by one character.
pub proof fn lemma_stripped_push(s: Seq<Symbol>, x: Symbol)
    ensures
        stripped(s.push(x)) == if kept(x) {
            stripped(s).push(x.value)
        } else {
            stripped(s)
        },
{
    s.lemma_filter_push(x, kept_pred());
    assert(spelled(s.filter(kept_pred()).push(x)) =~= spelled(s.filter(kept_pred())).push(
        x.value,
    ));
}

/// Every character of a word is alphabetic: a chunk holds no whitespace, and
/// of the rest only letters are kept.
pub proof fn lemma_word_alphabetic(text: Seq<Symbol>, k: int, i: int)
    requires
        0 <= k < chunks(text).len(),
        0 <= i < word_of(chunks(text)[k]).len(),
    ensures
        exists|j: int|
            0 <= j < chunks(text)[k].len() && (#[trigger] chunks(text)[k][j]).alphabetic
                && chunks(text)[k][j].value == word_of(chunks(text)[k])[i],
{
    let chunk = chunks(text)[k];
    let left = chunk.filter(kept_pred());
    lemma_chunks_shape(text);
    chunk.lemma_filter_pred(kept_pred(), i);
    chunk.lemma_filter_contains_rev(kept_pred(), left[i]);
    let j = choose|j: int| 0 <= j < chunk.len() && chunk[j] == left[i];
    assert(chunk[j].alphabetic);
}

/// The cursor only moves to the right.
pub proof fn lemma_cursor_monotone(chunks: Seq<Seq<Symbol>>, k: int)
    requires
        0 <= k <= chunks.len(),
    ensures
        cursor_after(chunks.take(k)) <= cursor_after(chunks),
    decreases chunks.len(),
{
    if k < chunks.len() {
        lemma_cursor_monotone(chunks.drop_last(), k);
        assert(chunks.drop_last().take(k) == chunks.take(k));
    } else {
        assert(chunks.take(k) == chunks);
    }
}

/// After the chunks of a line the cursor stands at most one column past the
/// line's end, and within the line when the line ends in whitespace.
pub proof fn lemma_cursor_within_line(s: Seq<Symbol>)
    ensures
        cursor_after(chunks(s)) <= s.len() + 1,
        s.len() == 0 || s.last().whitespace ==> cursor_after(chunks(s)) <= s.len(),
    decreases s.len(),
{
    if s.len() > 0 {
        let shorter = s.drop_last();
        lemma_cursor_within_line(shorter);
        lemma_chunks_shape(shorter);
        let before = chunks(shorter);
        if !s.last().whitespace {
            if s.len() >= 2 && !s[s.len() - 2].whitespace {
                assert(shorter.last() == s[s.len() - 2]);
                let grown = before.drop_last().push(before.last().push(s.last()));
                assert(grown.drop_last() == before.drop_last());
            } else {
                assert(before.push(seq![s.last()]).drop_last() == before);
                if s.len() >= 2 {
                    assert(shorter.last() == s[s.len() - 2]);
                }
            }
        }
    }
}

/// The tokens of one line all carry that line's number, stand left of the
/// cursor, hold a word, and come in strictly increasing columns.
pub proof fn lemma_words_in_chunks(chunks: Seq<Seq<Symbol>>, line: nat)
    ensures
        forall|i: int|
            0 <= i < words_in_chunks(chunks, line).len() ==> {
                let t = #[trigger] words_in_chunks(chunks, line)[i];
                t.line == line && t.start_column < cursor_after(chunks) && t.word.len() > 0
            },
        forall|i: int, j: int|
            0 <= i < j < words_in_chunks(chunks, line).len() ==> (#[trigger] words_in_chunks(
                chunks,
                line,
            )[i]).start_column < (#[trigger] words_in_chunks(chunks, line)[j]).start_column,
    decreases chunks.len(),
{
    if chunks.len() > 0 {
        lemma_words_in_chunks(chunks.drop_last(), line);
        let before = words_in_chunks(chunks.drop_last(), line);
        let now = words_in_chunks(chunks, line);
        assert forall|i: int| 0 <= i < now.len() implies ({
            let t = #[trigger] now[i];
            t.line == line && t.start_column < cursor_after(chunks) && t.word.len() > 0
        }) by {
            if i < before.len() {
                assert(now[i] == before[i]);
            }
        }
        assert forall|i: int, j: int| 0 <= i < j < now.len() implies (#[trigger] now[i]).start_column
            < (#[trigger] now[j]).start_column by {
            assert(now[i] == before[i]);
            if j < before.len() {
                assert(now[j] == before[j]);
            }
        }
    }
}

/// The tokens of the first lines of a text lie on those lines, hold a word
/// each, and come in reading order.
pub proof fn lemma_words_in_lines(lines: Seq<Seq<Symbol>>)
    ensures
        forall|i: int|
            0 <= i < words_in_lines(lines).len() ==> {
                let t = #[trigger] words_in_lines(lines)[i];
                t.line < lines.len() && t.word.len() > 0
            },
        forall|i: int, j: int|
            0 <= i < j < words_in_lines(lines).len() ==> precedes(
                #[trigger] words_in_lines(lines)[i],
                #[trigger] words_in_lines(lines)[j],
            ),
    decreases lines.len(),
{
    if lines.len() > 0 {
        lemma_words_in_lines(lines.drop_last());
        let last = chunks(lines.last());
        lemma_words_in_chunks(last, (lines.len() - 1) as nat);
        let before = words_in_lines(lines.drop_last());
        let here = words_in_chunks(last, (lines.len() - 1) as nat);
        let now = words_in_lines(lines);
        assert(now == before + here);
        assert forall|i: int| 0 <= i < now.len() implies ({
            let t = #[trigger] now[i];
            t.line < lines.len() && t.word.len() > 0
        }) by {
            if i < before.len() {
                assert(now[i] == before[i]);
            } else {
                assert(now[i] == here[i - before.len()]);
            }
        }
        assert forall|i: int, j: int| 0 <= i < j < now.len() implies precedes(
            #[trigger] now[i],
            #[trigger] now[j],
        ) by {
            if i < before.len() {
                assert(now[i] == before[i]);
            } else {
                assert(now[i] == here[i - before.len()]);
            }
            if j < before.len() {
                assert(now[j] == before[j]);
            } else {
                assert(now[j] == here[j - before.len()]);
            }
        }
    }
}

/// No token of a text has an empty word.
pub proof fn lemma_words_never_empty(text: Seq<char>)
    ensures
        forall|i: int|
            0 <= i < words_in_text(text).len() ==> (#[trigger] words_in_text(text)[i]).word.len()
                > 0,
{
    lemma_words_in_lines(symbol_lines(text));
}

/// The tokens of a text come in reading order: by line, and within a line by
/// column, each strictly after the one before it.
pub proof fn lemma_words_in_reading_order(text: Seq<char>)
    ensures
        forall|i: int, j: int|
            0 <= i < j < words_in_text(text).len() ==> precedes(
                #[trigger] words_in_text(text)[i],
                #[trigger] words_in_text(text)[j],
            ),
{
    lemma_words_in_lines(symbol_lines(text));
}

/// The characters of `chunk` that are alphabetic or whitespace, as a string.
pub fn keep_letters(chunk: &Vec<Symbol>) -> (out: String)
    ensures
        out@ == stripped(chunk@),
{
    let mut out = String::new();
    let mut i: usize = 0;
    proof {
        reveal(Seq::filter);
        assert(stripped(chunk@.take(0)) =~= Seq::<char>::empty());
    }
    while i < chunk.len()
        invariant
            i <= chunk.len(),
            out@ == stripped(chunk@.take(i as int)),
        decreases chunk.len() - i,
    {
        let x = chunk[i];
        proof {
            assert(chunk@.take(i + 1) == chunk@.take(i as int).push(x));
            lemma_stripped_push(chunk@.take(i as int), x);
        }
        if x.alphabetic || x.whitespace {
            out.push(x.value);
        }
        i += 1;
    }
    proof {
        assert(chunk@.take(i as int) == chunk@);
    }
    out
}

/// Removes from `s` every character that is neither alphabetic nor
/// whitespace.
pub fn remove_punctuation(s: &str) -> (out: String)
    ensures
        out@ == stripped(symbols_of(s@)),
{
    let all = classify_all(&chars_of(s));
    keep_letters(&all)
}

/// Whether `chunk` holds the scheme separator `://`.
pub fn holds_scheme_separator(chunk: &Vec<Symbol>) -> (found: bool)
    ensures
        found == is_url(chunk@),
{
    let n: usize = chunk.len();
    if n < 3 {
        return false;
    }
    let mut i: usize = 0;
    while i < n - 2
        invariant
            n == chunk.len(),
            n >= 3,
            i <= n - 2,
            forall|k: int| 0 <= k < i ==> !scheme_separator_at(chunk@, k),
        decreases n - i,
    {
        if chunk[i].value == ':' && chunk[i + 1].value == '/' && chunk[i + 2].value == '/' {
            assert(scheme_separator_at(chunk@, i as int));
            return true;
        }
        i += 1;
    }
    false
}

/// Extracts the words of one line, whose characters come with their classes.
///
/// The line is cut into chunks at runs of whitespace. A chunk gives the word
/// that is left when its punctuation is removed; a chunk that leaves nothing,
/// and a chunk that carries a URL, give no word. A word's column is where its
/// chunk would begin if every chunk before it were followed by exactly one
/// separator.
pub fn get_words_from_line(text: &Vec<Symbol>, line: usize) -> (words: Vec<PositionedWord>)
    ensures
        tokens_of(words@) == words_in_line(text@, line as nat),
{
    let line_chunks = split_chunks(text);
    let ghost cs = contents(line_chunks@);
    let mut words: Vec<PositionedWord> = Vec::new();
    let mut column: usize = 0;
    let mut k: usize = 0;
    proof {
        assert(tokens_of(words@) =~= words_in_chunks(cs.take(0), line as nat));
    }
    while k < line_chunks.len()
        invariant
            k <= line_chunks.len(),
            cs == contents(line_chunks@),
            cs == chunks(text@),
            k < line_chunks.len() ==> column == cursor_after(cs.take(k as int)),
            tokens_of(words@) == words_in_chunks(cs.take(k as int), line as nat),
        decreases line_chunks.len() - k,
    {
        let chunk = &line_chunks[k];
        let ghost found = tokens_of(words@);
        proof {
            assert(cs[k as int] == chunk@);
            assert(cs.take(k + 1).drop_last() == cs.take(k as int));
            assert(cs.take(k + 1).last() == chunk@);
        }
        if !holds_scheme_separator(chunk) {
            let word = keep_letters(chunk);
            if !word.as_str().is_empty() {
                let entry = PositionedWord { word, line, start_column: column };
                proof {
                    assert(tokens_of(words@.push(entry)) =~= found.push(entry@));
                }
                words.push(entry);
            }
        }
        let width: usize = chunk.len();
        k += 1;
        if k < line_chunks.len() {
            proof {
                assert(cs.take(k + 1).drop_last() == cs.take(k as int));
                assert(cursor_after(cs.take(k as int)) == column + width + 1);
                assert(cursor_after(cs.take(k + 1)) == cursor_after(cs.take(k as int))
                    + cs[k as int].len() + 1);
                lemma_cursor_monotone(cs, k + 1);
                lemma_cursor_within_line(text@);
                assert(text@.len() == text.len());
            }
            column = column + width + 1;
        }
    }
    proof {
        assert(cs.take(k as int) == cs);
    }
    words
}

/// Extracts the words of a text that is given line by line, its characters
/// with their classes: the words of each line, in line order, with the
/// line's zero-based number.
///
/// No word is empty, and the words come in reading order: each one stands on
/// a later line than the one before it, or on the same line at a greater
/// column.
pub fn get_words_from_lines(lines: &Vec<Vec<Symbol>>) -> (words: Vec<PositionedWord>)
    ensures
        tokens_of(words@) == words_in_lines(contents(lines@)),
        forall|i: int| 0 <= i < words.len() ==> (#[trigger] words[i]).word@.len() > 0,
        forall|i: int, j: int|
            0 <= i < j < words.len() ==> precedes((#[trigger] words[i])@, (#[trigger] words[j])@),
{
    let ghost every = contents(lines@);
    let mut words: Vec<PositionedWord> = Vec::new();
    let mut line: usize = 0;
    proof {
        assert(tokens_of(words@) =~= words_in_lines(every.take(0)));
    }
    while line < lines.len()
        invariant
            line <= lines.len(),
            every == contents(lines@),
            tokens_of(words@) == words_in_lines(every.take(line as int)),
        decreases lines.len() - line,
    {
        let mut found = get_words_from_line(&lines[line], line);
        proof {
            assert(every.take(line + 1).drop_last() == every.take(line as int));
            assert(every.take(line + 1).last() == lines@[line as int]@);
            assert(tokens_of(words@ + found@) =~= tokens_of(words@) + tokens_of(found@));
        }
        words.append(&mut found);
        line += 1;
    }
    proof {
        assert(every.take(line as int) == every);
        lemma_words_in_lines(every);
        assert forall|i: int| 0 <= i < words.len() implies (#[trigger] words[i]).word@.len()
            > 0 by {
            assert(tokens_of(words@)[i] == words[i]@);
        }
        assert forall|i: int, j: int| 0 <= i < j < words.len() implies precedes(
            (#[trigger] words[i])@,
            (#[trigger] words[j])@,
        ) by {
            assert(tokens_of(words@)[i] == words[i]@);
            assert(tokens_of(words@)[j] == words[j]@);
        }
    }
    words
}

/// Extracts the words of `s` with their positions: `s` is cut into lines at
/// its newlines, every character gets its Unicode classes, and each line
/// gives its words.
///
/// No word is empty, and the words come in reading order.
pub fn get_words_from_str(s: &str) -> (words: Vec<PositionedWord>)
    ensures
        tokens_of(words@) == words_in_text(s@),
        forall|i: int| 0 <= i < words.len() ==> (#[trigger] words[i]).word@.len() > 0,
        forall|i: int, j: int|
            0 <= i < j < words.len() ==> precedes((#[trigger] words[i])@, (#[trigger] words[j])@),
{
    let text = chars_of(s);
    let plain = split_lines(&text);
    let mut classified: Vec<Vec<Symbol>> = Vec::new();
    let mut i: usize = 0;
    while i < plain.len()
        invariant
            i <= plain.len(),
            contents(plain@) == lines(s@),
            contents(classified@) == symbol_lines(s@).take(i as int),
        decreases plain.len() - i,
    {
        let line = classify_all(&plain[i]);
        proof {
            assert(contents(plain@)[i as int] == plain@[i as int]@);
            assert(symbol_lines(s@)[i as int] == line@);
            assert(contents(classified@.push(line)) =~= contents(classified@).push(line@));
            assert(symbol_lines(s@).take(i + 1) =~= symbol_lines(s@).take(i as int).push(line@));
        }
        classified.push(line);
        i += 1;
    }
    proof {
        assert(symbol_lines(s@).take(i as int) =~= symbol_lines(s@));
    }
    get_words_from_lines(&classified)
}

} // verus!
