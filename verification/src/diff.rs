//! Edit distance between two strings, counted in characters.
use vstd::prelude::*;
use crate::chars::chars_of;

verus! {

/// The least of three numbers.
pub open spec fn min3(x: nat, y: nat, z: nat) -> nat {
    if x <= y && x <= z {
        x
    } else if y <= z {
        y
    } else {
        z
    }
}

/// What it costs to turn the character `x` into `y`: nothing when they are
/// the same, one substitution otherwise.
pub open spec fn substitution_cost(x: char, y: char) -> nat {
    if x == y {
        0
    } else {
        1
    }
}

/// The Levenshtein distance: the least number of single-character insertions,
/// deletions and substitutions that turn `a` into `b`.
pub open spec fn levenshtein_distance(a: Seq<char>, b: Seq<char>) -> nat
    decreases a.len() + b.len(),
{
    if a.len() == 0 {
        b.len()
    } else if b.len() == 0 {
        a.len()
    } else {
        min3(
            levenshtein_distance(a.drop_last(), b) + 1,
            levenshtein_distance(a, b.drop_last()) + 1,
            levenshtein_distance(a.drop_last(), b.drop_last()) + substitution_cost(
                a.last(),
                b.last(),
            ),
        )
    }
}

/// The distance never exceeds the length of the longer string: substituting
/// along the shorter one and inserting or deleting the rest is always possible.
pub proof fn lemma_distance_at_most_longer(a: Seq<char>, b: Seq<char>)
    ensures
        levenshtein_distance(a, b) <= a.len() || levenshtein_distance(a, b) <= b.len(),
    decreases a.len() + b.len(),
{
    if a.len() > 0 && b.len() > 0 {
        lemma_distance_at_most_longer(a.drop_last(), b.drop_last());
    }
}

/// The distance from the empty string is the length of the other string.
pub proof fn lemma_distance_from_empty(b: Seq<char>)
    ensures
        levenshtein_distance(Seq::<char>::empty(), b) == b.len(),
        levenshtein_distance(b, Seq::<char>::empty()) == b.len(),
{
}

/// A string is at distance zero from itself.
pub proof fn lemma_distance_to_self(a: Seq<char>)
    ensures
        levenshtein_distance(a, a) == 0,
    decreases a.len(),
{
    if a.len() > 0 {
        lemma_distance_to_self(a.drop_last());
    }
}

/// `levenshtein::levenshtein`: the Levenshtein distance between `a` and `b`,
/// both read as sequences of characters.
#[verifier::external_body]
pub(crate) fn levenshtein(a: &str, b: &str) -> (d: usize)
    ensures
        d == levenshtein_distance(a@, b@),
{
    ::levenshtein::levenshtein(a, b)
}

/// One cell of the distance table, from its three neighbours.
fn next_cell(up: usize, left: usize, diagonal: usize, same: bool) -> (cell: usize)
    requires
        diagonal < usize::MAX,
    ensures
        cell == min3(
            (up + 1) as nat,
            (left + 1) as nat,
            diagonal as nat + if same { 0nat } else { 1nat },
        ),
{
    let side: usize = if up <= left { up } else { left };
    if side < diagonal {
        side + 1
    } else if same {
        diagonal
    } else {
        diagonal + 1
    }
}

/// The Levenshtein distance between the character sequences `a` and `b`.
pub fn distance_of_chars(a: &Vec<char>, b: &Vec<char>) -> (d: usize)
    ensures
        d == levenshtein_distance(a@, b@),
{
    let m: usize = a.len();
    let n: usize = b.len();
    if n == 0 {
        return m;
    }
    // row[j] is the distance between the first `i` characters of `a` and the
    // first `j + 1` characters of `b`.
    let mut row: Vec<usize> = Vec::new();
    let mut j: usize = 0;
    while j < n
        invariant
            j <= n,
            n == b.len(),
            row.len() == j,
            forall|k: int|
                0 <= k < j ==> row[k] == #[trigger] levenshtein_distance(
                    a@.take(0),
                    b@.take(k + 1),
                ),
        decreases n - j,
    {
        row.push(j + 1);
        j += 1;
    }
    let mut i: usize = 0;
    while i < m
        invariant
            i <= m,
            m == a.len(),
            n == b.len(),
            n > 0,
            row.len() == n,
            forall|k: int|
                0 <= k < n ==> row[k] == #[trigger] levenshtein_distance(
                    a@.take(i as int),
                    b@.take(k + 1),
                ),
        decreases m - i,
    {
        let mut diagonal: usize = i;
        let mut left: usize = i + 1;
        let mut j: usize = 0;
        while j < n
            invariant
                j <= n,
                i < m,
                m == a.len(),
                n == b.len(),
                row.len() == n,
                diagonal == levenshtein_distance(a@.take(i as int), b@.take(j as int)),
                left == levenshtein_distance(a@.take(i + 1), b@.take(j as int)),
                forall|k: int|
                    0 <= k < j ==> row[k] == #[trigger] levenshtein_distance(
                        a@.take(i + 1),
                        b@.take(k + 1),
                    ),
                forall|k: int|
                    j <= k < n ==> row[k] == #[trigger] levenshtein_distance(
                        a@.take(i as int),
                        b@.take(k + 1),
                    ),
            decreases n - j,
        {
            let up: usize = row[j];
            proof {
                let x = a@.take(i + 1);
                let y = b@.take(j + 1);
                assert(x.drop_last() == a@.take(i as int));
                assert(y.drop_last() == b@.take(j as int));
                assert(x.last() == a@[i as int]);
                assert(y.last() == b@[j as int]);
                assert(up == levenshtein_distance(a@.take(i as int), y));
                lemma_distance_at_most_longer(a@.take(i as int), b@.take(j as int));
            }
            let cell: usize = next_cell(up, left, diagonal, a[i] == b[j]);
            row.set(j, cell);
            diagonal = up;
            left = cell;
            j += 1;
        }
        i += 1;
    }
    proof {
        assert(a@.take(m as int) == a@);
        assert(b@.take(n - 1 + 1) == b@);
        assert(row[n - 1] == levenshtein_distance(a@.take(m as int), b@.take(n - 1 + 1)));
    }
    row[n - 1]
}

/// The Levenshtein distance between `a` and `b`, counted in characters.
pub fn edit_distance(a: &str, b: &str) -> (d: usize)
    ensures
        d == levenshtein_distance(a@, b@),
{
    let a_chars = chars_of(a);
    let b_chars = chars_of(b);
    distance_of_chars(&a_chars, &b_chars)
}

} // verus!
