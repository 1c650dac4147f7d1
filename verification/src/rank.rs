use vstd::prelude::*;
use crate::point::{
    id_lt, lemma_id_irreflexive, lemma_id_total, lemma_id_transitive, PointId, PointIdView,
};
use crate::score::{lemma_score_transitive, Score};

verus! {

/// The order of a ranking: the higher similarity comes first, and of two
/// equal similarities the one with the smaller identifier.
pub open spec fn ranks_before(a: Score, a_id: PointIdView, b: Score, b_id: PointIdView) -> bool {
    b.below(a) || (a.ties(b) && id_lt(a_id, b_id))
}

/// Nothing ranks before itself.
pub proof fn lemma_rank_irreflexive(a: Score, a_id: PointIdView)
    ensures
        !ranks_before(a, a_id, a, a_id),
{
    lemma_id_irreflexive(a_id);
}

/// The ranking is transitive.
pub proof fn lemma_rank_transitive(
    a: Score,
    a_id: PointIdView,
    b: Score,
    b_id: PointIdView,
    c: Score,
    c_id: PointIdView,
)
    requires
        ranks_before(a, a_id, b, b_id),
        ranks_before(b, b_id, c, c_id),
    ensures
        ranks_before(a, a_id, c, c_id),
{
    if a.at_most(c) && c.at_most(b) {
        lemma_score_transitive(a, c, b);
    }
    if b.at_most(a) && a.at_most(c) {
        lemma_score_transitive(b, a, c);
    }
    if c.at_most(b) && b.at_most(a) {
        lemma_score_transitive(c, b, a);
    }
    if a.at_most(b) && b.at_most(c) {
        lemma_score_transitive(a, b, c);
    }
    if id_lt(a_id, b_id) && id_lt(b_id, c_id) {
        lemma_id_transitive(a_id, b_id, c_id);
    }
}

/// Of two candidates with different identifiers one ranks before the other.
pub proof fn lemma_rank_total(a: Score, a_id: PointIdView, b: Score, b_id: PointIdView)
    requires
        a_id != b_id,
    ensures
        ranks_before(a, a_id, b, b_id) || ranks_before(b, b_id, a, a_id),
{
    lemma_id_total(a_id, b_id);
}

/// Tells whether the candidate `a` ranks before the candidate `b`.
pub fn outranks(a: &Score, a_id: &PointId, b: &Score, b_id: &PointId) -> (r: bool)
    ensures
        r == ranks_before(*a, a_id@, *b, b_id@),
{
    if b.is_below(a) {
        true
    } else if a.is_below(b) {
        false
    } else {
        a_id.precedes(b_id)
    }
}

} // verus!
