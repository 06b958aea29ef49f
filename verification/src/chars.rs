//! Character classes and string primitives that the standard library computes
//! from the Unicode tables.
use vstd::prelude::*;

verus! {

/// Whether Unicode counts `c` as `Alphabetic`.
pub uninterp spec fn alphabetic(c: char) -> bool;

/// Whether Unicode counts `c` as `White_Space`.
pub uninterp spec fn whitespace(c: char) -> bool;

/// The lowercase form of `s` under the Unicode case mappings.
pub uninterp spec fn lowercase(s: Seq<char>) -> Seq<char>;

/// `str::to_lowercase`: the result is the lowercase form of `s` under the
/// Unicode case mappings, which depends on `s` alone and is named
/// [`lowercase`].
#[verifier::external_body]
pub(crate) fn to_lowercase(s: &str) -> (out: String)
    ensures
        out@ == lowercase(s@),
{
    s.to_lowercase()
}

/// `char::is_alphabetic`: whether Unicode counts `c` as `Alphabetic`. The
/// result depends on `c` alone and is named [`alphabetic`].
#[verifier::external_body]
fn is_alphabetic(c: char) -> (b: bool)
    ensures
        b == alphabetic(c),
{
    c.is_alphabetic()
}

/// `char::is_whitespace`: whether Unicode counts `c` as `White_Space`. The
/// result depends on `c` alone and is named [`whitespace`].
#[verifier::external_body]
fn is_whitespace(c: char) -> (b: bool)
    ensures
        b == whitespace(c),
{
    c.is_whitespace()
}

/// A character together with the classes it belongs to.
#[derive(Clone, Copy, Debug)]
pub struct Symbol {
    /// The character itself.
    pub value: char,
    /// Whether the character is a letter.
    pub alphabetic: bool,
    /// Whether the character is whitespace.
    pub whitespace: bool,
}

/// The character `c` with its Unicode classes.
pub open spec fn symbol_of(c: char) -> Symbol {
    Symbol { value: c, alphabetic: alphabetic(c), whitespace: whitespace(c) }
}

/// The characters of `s`, each with its Unicode classes.
pub open spec fn symbols_of(s: Seq<char>) -> Seq<Symbol> {
    s.map_values(|c: char| symbol_of(c))
}

/// The characters that a sequence of symbols spells.
pub open spec fn spelled(s: Seq<Symbol>) -> Seq<char> {
    s.map_values(|x: Symbol| x.value)
}

/// Looks up the Unicode classes of `c`.
pub fn classify(c: char) -> (out: Symbol)
    ensures
        out == symbol_of(c),
{
    Symbol { value: c, alphabetic: is_alphabetic(c), whitespace: is_whitespace(c) }
}

/// Looks up the Unicode classes of every character of `s`.
pub fn classify_all(s: &Vec<char>) -> (out: Vec<Symbol>)
    ensures
        out@ == symbols_of(s@),
{
    let mut out: Vec<Symbol> = Vec::new();
    let mut i: usize = 0;
    while i < s.len()
        invariant
            i <= s.len(),
            out@ == symbols_of(s@.take(i as int)),
        decreases s.len() - i,
    {
        let next = classify(s[i]);
        proof {
            assert(symbols_of(s@.take(i + 1)) =~= symbols_of(s@.take(i as int)).push(next));
        }
        out.push(next);
        i += 1;
    }
    proof {
        assert(s@.take(i as int) == s@);
    }
    out
}

/// `String::push` appends one character to the end of the string.
pub assume_specification[ String::push ](s: &mut String, c: char)
    ensures
        final(s)@ == old(s)@.push(c),
;

/// The characters of `s`, in order.
pub fn chars_of(s: &str) -> (out: Vec<char>)
    ensures
        out@ == s@,
{
    let mut out: Vec<char> = Vec::new();
    for c in it: s.chars()
        invariant
            out@ == it.seq().take(it.index() as int),
            it.seq() == s@,
    {
        out.push(c);
    }
    out
}

} // verus!
