//! A plain-text spell checker: position-aware word extraction, wordlist
//! membership, and suggestions ranked by edit distance.
pub mod chars;
pub mod check;
pub mod diff;
pub mod iter;
pub mod order;
pub mod suggestion;
pub mod text;
pub mod wordlist;

pub use check::spellcheck;
pub use diff::edit_distance;
pub use iter::get_words_from_str;
pub use suggestion::{get_best_suggestion, get_suggestions};
pub use wordlist::{load, load_multiple, Wordlist};
