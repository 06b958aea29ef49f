//! Ordering scored entries by distance.
use vstd::prelude::*;
use std::cmp::Ordering;
use rayon::slice::ParallelSliceMut;

verus! {

/// A word of a wordlist together with its distance from a query.
#[derive(Clone, Copy, Debug)]
pub struct Scored {
    /// The edit distance between the query and the word.
    pub distance: usize,
    /// The index of the wordlist that holds the word.
    pub list: usize,
    /// The index of the word within its wordlist.
    pub word: usize,
}

/// The entries whose distance is `d`, as a predicate.
pub open spec fn scored_at(d: nat) -> spec_fn(Scored) -> bool {
    |e: Scored| e.distance == d
}

/// Whether the distances of `entries` never decrease from left to right.
pub open spec fn ascending(entries: Seq<Scored>) -> bool {
    forall|i: int, j: int|
        0 <= i < j < entries.len() ==> (#[trigger] entries[i]).distance <= (
        #[trigger] entries[j]).distance
}

/// Compares two entries by their distance alone.
pub fn by_distance(a: &Scored, b: &Scored) -> (o: Ordering)
    ensures
        a.distance < b.distance ==> o == Ordering::Less,
        a.distance == b.distance ==> o == Ordering::Equal,
        a.distance > b.distance ==> o == Ordering::Greater,
{
    if a.distance < b.distance {
        Ordering::Less
    } else if a.distance == b.distance {
        Ordering::Equal
    } else {
        Ordering::Greater
    }
}

/// `rayon`'s `par_sort_by` on the entries, comparing with [`by_distance`].
///
/// The sort works in place and is stable: afterwards the distances ascend,
/// and the entries of any one distance are the same as before, in the same
/// order.
#[verifier::external_body]
pub(crate) fn sort_by_distance(entries: &mut Vec<Scored>)
    ensures
        final(entries)@.len() == old(entries)@.len(),
        ascending(final(entries)@),
        forall|d: nat|
            final(entries)@.filter(#[trigger] scored_at(d)) == old(entries)@.filter(scored_at(d)),
{
    entries.par_sort_by(|a, b| by_distance(a, b));
}

} // verus!
