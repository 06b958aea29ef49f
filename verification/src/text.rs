//! Cutting text into lines and lines into whitespace-delimited chunks.
use vstd::prelude::*;
use crate::chars::Symbol;

verus! {

/// The sequences held by a sequence of vectors.
pub open spec fn contents<T>(v: Seq<Vec<T>>) -> Seq<Seq<T>> {
    v.map_values(|x: Vec<T>| x@)
}

/// The lines of `s`: the stretches between newline characters. A text with
/// `n` newlines has `n + 1` lines, of which any may be empty.
pub open spec fn lines(s: Seq<char>) -> Seq<Seq<char>>
    decreases s.len(),
{
    if s.len() == 0 {
        seq![Seq::<char>::empty()]
    } else {
        let before = lines(s.drop_last());
        if s.last() == '\n' {
            before.push(Seq::<char>::empty())
        } else {
            before.drop_last().push(before.last().push(s.last()))
        }
    }
}

/// The chunks of `s`: its maximal runs of characters that are not whitespace,
/// from left to right.
pub open spec fn chunks(s: Seq<Symbol>) -> Seq<Seq<Symbol>>
    decreases s.len(),
{
    if s.len() == 0 {
        Seq::<Seq<Symbol>>::empty()
    } else {
        let before = chunks(s.drop_last());
        if s.last().whitespace {
            before
        } else if s.len() >= 2 && !s[s.len() - 2].whitespace {
            before.drop_last().push(before.last().push(s.last()))
        } else {
            before.push(seq![s.last()])
        }
    }
}

/// No chunk is empty, no chunk holds whitespace, and a text that ends in a
/// character that is not whitespace has a last chunk.
pub proof fn lemma_chunks_shape(s: Seq<Symbol>)
    ensures
        forall|k: int| 0 <= k < chunks(s).len() ==> (#[trigger] chunks(s)[k]).len() > 0,
        forall|k: int, j: int|
            0 <= k < chunks(s).len() && 0 <= j < chunks(s)[k].len() ==> !(
            #[trigger] chunks(s)[k][j]).whitespace,
        s.len() > 0 && !s.last().whitespace ==> chunks(s).len() > 0,
    decreases s.len(),
{
    if s.len() > 0 {
        lemma_chunks_shape(s.drop_last());
        let before = chunks(s.drop_last());
        let now = chunks(s);
        if !s.last().whitespace {
            if s.len() >= 2 && !s[s.len() - 2].whitespace {
                assert(s.drop_last().last() == s[s.len() - 2]);
                assert(now == before.drop_last().push(before.last().push(s.last())));
            } else {
                assert(now == before.push(seq![s.last()]));
            }
            assert forall|k: int| 0 <= k < now.len() implies (#[trigger] now[k]).len() > 0 by {
                if k < now.len() - 1 {
                    assert(now[k] == before[k]);
                }
            }
            assert forall|k: int, j: int| 0 <= k < now.len() && 0 <= j < now[k].len() implies !(
            #[trigger] now[k][j]).whitespace by {
                if k < now.len() - 1 {
                    assert(now[k] == before[k]);
                } else if s.len() >= 2 && !s[s.len() - 2].whitespace {
                    if j < now[k].len() - 1 {
                        assert(now[k][j] == before.last()[j]);
                    }
                }
            }
        }
    }
}

/// Cuts `text` into its lines.
pub fn split_lines(text: &Vec<char>) -> (out: Vec<Vec<char>>)
    ensures
        contents(out@) == lines(text@),
{
    let mut done: Vec<Vec<char>> = Vec::new();
    let mut current: Vec<char> = Vec::new();
    let mut i: usize = 0;
    while i < text.len()
        invariant
            i <= text.len(),
            contents(done@).push(current@) == lines(text@.take(i as int)),
        decreases text.len() - i,
    {
        let c = text[i];
        proof {
            let upto = text@.take(i + 1);
            assert(upto.drop_last() == text@.take(i as int));
            assert(upto.last() == c);
            assert(contents(done@).push(current@).drop_last() =~= contents(done@));
        }
        if c == '\n' {
            proof {
                assert(contents(done@.push(current)) =~= contents(done@).push(current@));
            }
            done.push(current);
            current = Vec::new();
        } else {
            current.push(c);
        }
        i += 1;
    }
    proof {
        assert(text@.take(i as int) == text@);
        assert(contents(done@.push(current)) =~= contents(done@).push(current@));
    }
    done.push(current);
    done
}

/// Cuts `line` into its chunks.
pub fn split_chunks(line: &Vec<Symbol>) -> (out: Vec<Vec<Symbol>>)
    ensures
        contents(out@) == chunks(line@),
{
    let mut done: Vec<Vec<Symbol>> = Vec::new();
    let mut current: Vec<Symbol> = Vec::new();
    let mut i: usize = 0;
    while i < line.len()
        invariant
            i <= line.len(),
            current@.len() > 0 <==> i > 0 && !line@[i - 1].whitespace,
            chunks(line@.take(i as int)) == if current@.len() > 0 {
                contents(done@).push(current@)
            } else {
                contents(done@)
            },
        decreases line.len() - i,
    {
        let c = line[i];
        let ghost open = current@;
        let ghost closed = contents(done@);
        proof {
            let upto = line@.take(i + 1);
            assert(upto.drop_last() == line@.take(i as int));
            assert(upto.last() == c);
            if i > 0 {
                assert(upto[upto.len() - 2] == line@[i - 1]);
            }
            assert(closed.push(open).drop_last() =~= closed);
            assert(contents(done@.push(current)) =~= closed.push(open));
        }
        if c.whitespace {
            if current.len() > 0 {
                done.push(current);
                current = Vec::new();
            }
        } else {
            current.push(c);
            proof {
                if open.len() == 0 {
                    assert(current@ =~= seq![c]);
                }
            }
        }
        i += 1;
    }
    proof {
        assert(line@.take(i as int) == line@);
        assert(contents(done@.push(current)) =~= contents(done@).push(current@));
    }
    if current.len() > 0 {
        done.push(current);
    }
    done
}

} // verus!
