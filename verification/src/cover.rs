use vstd::prelude::*;
use crate::text::{all_space, lemma_skip_space, skip_space};

verus! {

/// The pieces lie in `text` from `from` on, in order, each after a run of
/// whitespace, and only whitespace follows the last.
pub open spec fn placed(text: Seq<char>, pieces: Seq<Seq<char>>, from: int) -> bool
    decreases pieces.len(),
{
    let start = skip_space(text, from);
    if pieces.len() == 0 {
        start >= text.len()
    } else {
        let end = start + pieces[0].len();
        &&& end <= text.len()
        &&& text.subrange(start, end) == pieces[0]
        &&& placed(text, pieces.drop_first(), end)
    }
}

/// The text that gaps and pieces make when they take turns, a gap first and
/// a gap last.
pub open spec fn interleave(gaps: Seq<Seq<char>>, pieces: Seq<Seq<char>>) -> Seq<char>
    decreases pieces.len(),
{
    if gaps.len() == 0 {
        Seq::empty()
    } else if pieces.len() == 0 {
        gaps[0]
    } else {
        gaps[0] + pieces[0] + interleave(gaps.drop_first(), pieces.drop_first())
    }
}

/// `text` is the pieces in order with runs of whitespace before, between
/// and behind them: nothing but whitespace is left out, and nothing occurs
/// twice.
pub open spec fn is_cover(text: Seq<char>, pieces: Seq<Seq<char>>) -> bool {
    exists|gaps: Seq<Seq<char>>|
        {
            &&& gaps.len() == pieces.len() + 1
            &&& forall|i: int| 0 <= i < gaps.len() ==> all_space(#[trigger] gaps[i])
            &&& text == #[trigger] interleave(gaps, pieces)
        }
}

/// Pieces that are placed in a text cover the rest of that text.
pub proof fn lemma_placed_covers(text: Seq<char>, pieces: Seq<Seq<char>>, from: int)
    requires
        0 <= from <= text.len(),
        placed(text, pieces, from),
    ensures
        is_cover(text.skip(from), pieces),
    decreases pieces.len(),
{
    lemma_skip_space(text, from);
    let start = skip_space(text, from);
    if pieces.len() == 0 {
        let gaps = seq![text.skip(from)];
        assert(text.skip(from) =~= text.subrange(from, start));
        assert(interleave(gaps, pieces) == text.skip(from));
    } else {
        let end = start + pieces[0].len();
        lemma_placed_covers(text, pieces.drop_first(), end);
        let rest = choose|gaps: Seq<Seq<char>>|
            {
                &&& gaps.len() == pieces.drop_first().len() + 1
                &&& forall|i: int| 0 <= i < gaps.len() ==> all_space(#[trigger] gaps[i])
                &&& text.skip(end) == #[trigger] interleave(gaps, pieces.drop_first())
            };
        let gap = text.subrange(from, start);
        let gaps = seq![gap] + rest;
        assert(gaps.drop_first() =~= rest);
        assert forall|i: int| 0 <= i < gaps.len() implies all_space(#[trigger] gaps[i]) by {
            if i > 0 {
                assert(gaps[i] == rest[i - 1]);
            }
        }
        assert(text.skip(from) =~= gap + text.subrange(start, end) + text.skip(end));
        assert(interleave(gaps, pieces) == text.skip(from));
    }
}

} // verus!
