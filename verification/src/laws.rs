use vstd::prelude::*;
use crate::chunker::{
    chunked, chunked_by_words, cut_at, in_a_word, is_chunking, is_word, run_ok, split_well,
    tokenized, word_text, words_of, ChunkView, Word,
};
use crate::collection::{fits, id_set, upsert_all, CollectionView};
use crate::error::Error;
use crate::point::{id_lt, PointIdView, PointView};
use crate::rank::{lemma_rank_irreflexive, lemma_rank_total, lemma_rank_transitive, ranks_before};
use crate::score::{
    lemma_denom_positive, lemma_one_is_largest, lemma_score_of_itself, norm_sq, score_of, Score,
};
use crate::search::{is_top_ranked, listed, ScoredPointView};
use crate::text::{all_space, is_space, is_trimmed, lemma_skip_space, skip_space};
use crate::splitter::split_pieces;
use crate::store::{
    after_create, after_delete, after_upsert, create_outcome, delete_outcome, lookup,
    upsert_outcome, StoreModel,
};

verus! {

/// Making a collection is idempotent: where `create_collection` has
/// succeeded, a second call with the same name and dimension succeeds too
/// and leaves the store as it is.
pub proof fn lemma_create_twice(store: StoreModel, name: Seq<char>, dimension: u32)
    requires
        create_outcome(store, name, dimension) is Ok,
    ensures
        create_outcome(after_create(store, name, dimension), name, dimension) is Ok,
        after_create(after_create(store, name, dimension), name, dimension) == after_create(
            store,
            name,
            dimension,
        ),
{
}

/// After a batch was applied, each identifier of the batch is bound to the
/// last point that the batch holds for it.
pub proof fn lemma_upsert_binds_last(
    points: Map<PointIdView, PointView>,
    batch: Seq<PointView>,
    i: int,
)
    requires
        0 <= i < batch.len(),
        forall|j: int| i < j < batch.len() ==> (#[trigger] batch[j]).id != batch[i].id,
    ensures
        upsert_all(points, batch).contains_key(batch[i].id),
        upsert_all(points, batch)[batch[i].id] == batch[i],
    decreases batch.len(),
{
    if i < batch.len() - 1 {
        let head = batch.drop_last();
        assert(batch.last().id != batch[i].id);
        assert forall|j: int| i < j < head.len() implies (#[trigger] head[j]).id != head[i].id by {
            assert(head[j] == batch[j]);
        }
        lemma_upsert_binds_last(points, head, i);
    }
}

/// The last write wins: after two batches were upserted one after the
/// other, `get` answers for each identifier of the second batch the last
/// point that this batch holds for it, whatever was kept under it before.
pub proof fn lemma_last_write_wins(
    store: StoreModel,
    name: Seq<char>,
    first: Seq<PointView>,
    second: Seq<PointView>,
    i: int,
)
    requires
        upsert_outcome(store, name, first) is Ok,
        fits(store[name].dimension, second),
        0 <= i < second.len(),
        forall|j: int| i < j < second.len() ==> (#[trigger] second[j]).id != second[i].id,
    ensures
        lookup(
            after_upsert(after_upsert(store, name, first), name, second),
            name,
            second[i].id,
        ) == Ok::<Option<PointView>, Error>(Some(second[i])),
{
    let once = after_upsert(store, name, first);
    lemma_upsert_binds_last(once[name].points, second, i);
}

/// Deleting identifiers that a collection does not have leaves the store
/// as it is.
pub proof fn lemma_delete_of_absent_ids(store: StoreModel, name: Seq<char>, ids: Seq<PointIdView>)
    requires
        store.contains_key(name),
        forall|i: int| 0 <= i < ids.len() ==> !store[name].points.contains_key(#[trigger] ids[i]),
    ensures
        delete_outcome(store, name) is Ok,
        after_delete(store, name, ids) == store,
{
    let points = store[name].points;
    assert(points.remove_keys(id_set(ids)) =~= points) by {
        assert forall|id: PointIdView| points.contains_key(id) implies !id_set(ids).contains(id) by {
            if ids.contains(id) {
                let i = choose|i: int| 0 <= i < ids.len() && ids[i] == id;
                assert(!points.contains_key(ids[i]));
            }
        }
    }
    assert(after_delete(store, name, ids) =~= store);
}

/// An upsert that is refused leaves the store as it is.
pub proof fn lemma_refused_upsert(store: StoreModel, name: Seq<char>, batch: Seq<PointView>)
    requires
        upsert_outcome(store, name, batch) is Err,
    ensures
        after_upsert(store, name, batch) == store,
{
}

/// A search returns at most `limit` points, and no point of the result has
/// a higher score than a point before it.
pub proof fn lemma_search_is_bounded_and_sorted(
    points: Map<PointIdView, PointView>,
    query: Seq<i16>,
    limit: int,
    r: Seq<ScoredPointView>,
)
    requires
        0 <= limit,
        is_top_ranked(points, query, limit, r),
    ensures
        r.len() <= limit,
        r.len() <= points.len(),
        forall|j: int, k: int|
            0 <= j < k < r.len() ==> (#[trigger] r[k]).score.at_most((#[trigger] r[j]).score),
{
    assert forall|j: int, k: int| 0 <= j < k < r.len() implies (#[trigger] r[k]).score.at_most(
        (#[trigger] r[j]).score,
    ) by {
        assert(ranks_before(r[j].score, r[j].point.id, r[k].score, r[k].point.id));
    }
}

/// A score that ties with a score of 1 is 1.
proof fn lemma_ties_with_one(s: Score, one: Score)
    requires
        one.is_one(),
        s.ties(one),
    ensures
        s.is_one(),
{
    lemma_denom_positive(one);
    let k = one.denom();
    let (n, d) = (s.numer(), s.denom());
    assert(n == d) by (nonlinear_arith)
        requires
            n * k == k * d,
            k > 0,
    ;
}

/// A point whose vector is the query itself has the score 1, which no
/// point exceeds, and it is the first of the result unless another point
/// with the score 1 has an identifier that comes before its own.
pub proof fn lemma_identical_vector_ranks_first(
    collection: CollectionView,
    query: Seq<i16>,
    limit: int,
    r: Seq<ScoredPointView>,
    id: PointIdView,
)
    requires
        collection.wf(),
        query.len() == collection.dimension,
        norm_sq(query) > 0,
        collection.points.contains_key(id),
        collection.points[id].vector == query,
        limit >= 1,
        is_top_ranked(collection.points, query, limit, r),
    ensures
        score_of(query, query).is_one(),
        forall|other: PointIdView| #[trigger]
            collection.points.contains_key(other) ==> score_of(
                query,
                collection.points[other].vector,
            ).at_most(score_of(query, query)),
        r.len() >= 1,
        r[0].score.is_one(),
        r[0].point.id == id || id_lt(r[0].point.id, id),
{
    let points = collection.points;
    let one = score_of(query, query);
    lemma_score_of_itself(query);
    assert forall|other: PointIdView| #[trigger] points.contains_key(other) implies score_of(
        query,
        points[other].vector,
    ).at_most(one) by {
        lemma_one_is_largest(one, query, points[other].vector);
    }
    assert(points.len() >= 1) by {
        assert(points.dom().contains(id));
        if points.dom().len() == 0 {
            points.dom().lemma_len0_is_empty();
        }
    }
    let first = r[0];
    assert(points.contains_key(first.point.id));
    assert(first.score.at_most(one));
    if first.point.id != id {
        if listed(r, id) {
            let j = choose|j: int| 0 <= j < r.len() && (#[trigger] r[j]).point.id == id;
            assert(ranks_before(first.score, first.point.id, r[j].score, r[j].point.id));
        } else {
            assert(ranks_before(first.score, first.point.id, score_of(query, points[id].vector), id));
        }
        assert(first.score.ties(one));
    } else {
        assert(points[first.point.id] == first.point);
    }
    lemma_ties_with_one(first.score, one);
}

/// Where two answers to one search agree up to the place `j`, the point
/// of the first at `j` does not rank before the point of the second there.
proof fn lemma_not_before(
    points: Map<PointIdView, PointView>,
    query: Seq<i16>,
    limit: int,
    a: Seq<ScoredPointView>,
    b: Seq<ScoredPointView>,
    j: int,
)
    requires
        is_top_ranked(points, query, limit, a),
        is_top_ranked(points, query, limit, b),
        0 <= j < a.len(),
        forall|i: int| 0 <= i < j ==> a[i] == b[i],
    ensures
        !ranks_before(a[j].score, a[j].point.id, b[j].score, b[j].point.id),
{
    let x = a[j];
    let y = b[j];
    if ranks_before(x.score, x.point.id, y.score, y.point.id) {
        assert(points.contains_key(x.point.id));
        if listed(b, x.point.id) {
            let k = choose|k: int| 0 <= k < b.len() && (#[trigger] b[k]).point.id == x.point.id;
            assert(b[k].point == x.point);
            assert(b[k].score == x.score);
            if k < j {
                assert(a[k] == b[k]);
                assert(ranks_before(a[k].score, a[k].point.id, a[j].score, a[j].point.id));
                lemma_rank_irreflexive(x.score, x.point.id);
            } else if k == j {
                lemma_rank_irreflexive(x.score, x.point.id);
            } else {
                assert(ranks_before(b[j].score, b[j].point.id, b[k].score, b[k].point.id));
                lemma_rank_transitive(
                    x.score,
                    x.point.id,
                    y.score,
                    y.point.id,
                    x.score,
                    x.point.id,
                );
                lemma_rank_irreflexive(x.score, x.point.id);
            }
        } else {
            assert(ranks_before(
                b[j].score,
                b[j].point.id,
                score_of(query, points[x.point.id].vector),
                x.point.id,
            ));
            lemma_rank_transitive(x.score, x.point.id, y.score, y.point.id, x.score, x.point.id);
            lemma_rank_irreflexive(x.score, x.point.id);
        }
    }
}

/// Two answers to one search agree at every place.
proof fn lemma_answers_agree(
    points: Map<PointIdView, PointView>,
    query: Seq<i16>,
    limit: int,
    a: Seq<ScoredPointView>,
    b: Seq<ScoredPointView>,
    j: int,
)
    requires
        is_top_ranked(points, query, limit, a),
        is_top_ranked(points, query, limit, b),
        0 <= j <= a.len(),
    ensures
        forall|i: int| 0 <= i < j ==> a[i] == b[i],
    decreases j,
{
    if j > 0 {
        lemma_answers_agree(points, query, limit, a, b, j - 1);
        let x = a[j - 1];
        let y = b[j - 1];
        lemma_not_before(points, query, limit, a, b, j - 1);
        lemma_not_before(points, query, limit, b, a, j - 1);
        if x.point.id != y.point.id {
            lemma_rank_total(x.score, x.point.id, y.score, y.point.id);
        }
        assert(points[x.point.id] == x.point && points[y.point.id] == y.point);
    }
}

/// A search has one answer: what `is_top_ranked` says of a result holds of
/// no other.
pub proof fn lemma_search_has_one_answer(
    points: Map<PointIdView, PointView>,
    query: Seq<i16>,
    limit: int,
    a: Seq<ScoredPointView>,
    b: Seq<ScoredPointView>,
)
    requires
        is_top_ranked(points, query, limit, a),
        is_top_ranked(points, query, limit, b),
    ensures
        a == b,
{
    lemma_answers_agree(points, query, limit, a, b, a.len() as int);
    assert(a =~= b);
}

/// Two words of one text that share a place are the same word.
proof fn lemma_same_word(text: Seq<char>, s1: int, e1: int, s2: int, e2: int, p: int)
    requires
        is_word(text, s1, e1),
        is_word(text, s2, e2),
        s1 <= p < e1,
        s2 <= p < e2,
    ensures
        s1 == s2,
        e1 == e2,
{
    if s1 < s2 {
        assert(!is_space(text[s2 - 1]));
    }
    if s2 < s1 {
        assert(!is_space(text[s1 - 1]));
    }
    if e1 < e2 {
        assert(!is_space(text[e1]));
    }
    if e2 < e1 {
        assert(!is_space(text[e2]));
    }
}

/// The word at `i` of one list of the words of a text is a word of every
/// other such list.
proof fn lemma_word_is_found(text: Seq<char>, a: Seq<Word>, b: Seq<Word>, i: int) -> (k: int)
    requires
        words_of(text, a),
        words_of(text, b),
        0 <= i < a.len(),
    ensures
        0 <= k < b.len(),
        b[k].start == a[i].start,
        b[k].end == a[i].end,
{
    assert(is_word(text, a[i].start as int, a[i].end as int));
    let p = a[i].start as int;
    assert(!is_space(text[p]));
    assert(in_a_word(b, p));
    let k = choose|k: int| 0 <= k < b.len() && (#[trigger] b[k]).start <= p < b[k].end;
    assert(is_word(text, b[k].start as int, b[k].end as int));
    lemma_same_word(text, a[i].start as int, a[i].end as int, b[k].start as int, b[k].end as int, p);
    k
}

/// Two lists of the words of one text hold the same words up to the place
/// `n`.
proof fn lemma_words_agree(text: Seq<char>, a: Seq<Word>, b: Seq<Word>, n: int)
    requires
        words_of(text, a),
        words_of(text, b),
        0 <= n <= a.len(),
    ensures
        n <= b.len(),
        forall|i: int|
            0 <= i < n ==> (#[trigger] a[i]).start == b[i].start && a[i].end == b[i].end,
    decreases n,
{
    if n > 0 {
        lemma_words_agree(text, a, b, n - 1);
        let i = n - 1;
        let k = lemma_word_is_found(text, a, b, i);
        assert(is_word(text, a[i].start as int, a[i].end as int));
        if k < i {
            assert(a[k].start == b[k].start);
            assert(a[k].end < a[i].start);
        } else if k > i {
            let m = lemma_word_is_found(text, b, a, i);
            assert(is_word(text, b[i].start as int, b[i].end as int));
            assert(b[i].end < b[k].start);
            if m < i {
                assert(a[m].start == b[m].start);
                assert(b[m].end < b[i].start);
            } else if m > i {
                assert(a[i].end < a[m].start);
            }
        }
    }
}

/// A text has one list of words: the places of the words of two such lists
/// are the same.
pub proof fn lemma_words_are_unique(text: Seq<char>, a: Seq<Word>, b: Seq<Word>)
    requires
        words_of(text, a),
        words_of(text, b),
    ensures
        a.len() == b.len(),
        forall|i: int|
            0 <= i < a.len() ==> (#[trigger] a[i]).start == b[i].start && a[i].end == b[i].end,
{
    lemma_words_agree(text, a, b, a.len() as int);
    lemma_words_agree(text, b, a, b.len() as int);
}

/// The cuts of two chunkings of one text with the same measured words are
/// the same up to the place `n`.
proof fn lemma_cuts_agree(
    text: Seq<char>,
    words: Seq<Word>,
    max_tokens: usize,
    c: Seq<int>,
    x: Seq<ChunkView>,
    d: Seq<int>,
    y: Seq<ChunkView>,
    n: int,
)
    requires
        cut_at(text, words, max_tokens, c, x),
        cut_at(text, words, max_tokens, d, y),
        0 <= n <= x.len(),
    ensures
        n <= y.len(),
        forall|i: int| 0 <= i <= n ==> c[i] == d[i],
        forall|i: int| 0 <= i < n ==> x[i] == y[i],
    decreases n,
{
    if n > 0 {
        lemma_cuts_agree(text, words, max_tokens, c, x, d, y, n - 1);
        assert(run_ok(text, words, max_tokens, c, x, n - 1));
        assert(c[n - 1] == d[n - 1]);
        if n - 1 >= y.len() {
            assert(d[n - 1] == words.len());
        }
        assert(run_ok(text, words, max_tokens, d, y, n - 1));
    }
}

/// A text whose words are measured has one chunking for a limit.
pub proof fn lemma_chunking_is_unique(
    text: Seq<char>,
    words: Seq<Word>,
    max_tokens: usize,
    x: Seq<ChunkView>,
    y: Seq<ChunkView>,
)
    requires
        is_chunking(text, words, max_tokens, x),
        is_chunking(text, words, max_tokens, y),
    ensures
        x == y,
{
    let c = choose|c: Seq<int>| cut_at(text, words, max_tokens, c, x);
    let d = choose|d: Seq<int>| cut_at(text, words, max_tokens, d, y);
    lemma_cuts_agree(text, words, max_tokens, c, x, d, y, x.len() as int);
    lemma_cuts_agree(text, words, max_tokens, d, y, c, x, y.len() as int);
    assert(x =~= y);
}

/// A text has one chunking by its words for a limit when the tokens of
/// its words are counted by the tokenizer.
pub proof fn lemma_chunking_by_words_is_unique(
    text: Seq<char>,
    max_tokens: usize,
    x: Seq<ChunkView>,
    y: Seq<ChunkView>,
)
    requires
        chunked_by_words(text, max_tokens, x),
        chunked_by_words(text, max_tokens, y),
    ensures
        x == y,
{
    let a = choose|a: Seq<Word>| #[trigger]
        tokenized(text, a) && is_chunking(text, a, max_tokens, x);
    let b = choose|b: Seq<Word>| #[trigger]
        tokenized(text, b) && is_chunking(text, b, max_tokens, y);
    lemma_words_are_unique(text, a, b);
    assert forall|i: int| 0 <= i < a.len() implies a[i] == b[i] by {
        assert(word_text(text, a, i) == word_text(text, b, i));
    }
    assert(a =~= b);
    lemma_chunking_is_unique(text, a, max_tokens, x, y);
}

/// Chunking is repeatable: for a text and a limit `chunk` has one answer.
pub proof fn lemma_chunk_is_repeatable(
    text: Seq<char>,
    max_tokens: usize,
    x: Seq<ChunkView>,
    y: Seq<ChunkView>,
)
    requires
        chunked(text, max_tokens, x),
        chunked(text, max_tokens, y),
    ensures
        x == y,
{
    if !split_well(text, max_tokens) {
        lemma_chunking_by_words_is_unique(text, max_tokens, x, y);
    }
}

/// A text of nothing but whitespace has no chunks.
pub proof fn lemma_blank_text_has_no_chunks(
    text: Seq<char>,
    max_tokens: usize,
    chunks: Seq<ChunkView>,
)
    requires
        all_space(text),
        chunked(text, max_tokens, chunks),
    ensures
        chunks.len() == 0,
{
    let pieces = split_pieces(text, max_tokens);
    if split_well(text, max_tokens) {
        if pieces.len() > 0 {
            lemma_skip_space(text, 0);
            let start = skip_space(text, 0);
            assert(is_trimmed(pieces[0]));
            assert(text.subrange(start, start + pieces[0].len())[0] == text[start]);
        }
    } else {
        let words = choose|words: Seq<Word>| #[trigger]
            tokenized(text, words) && is_chunking(text, words, max_tokens, chunks);
        if words.len() > 0 {
            assert(is_word(text, words[0].start as int, words[0].end as int));
            assert(is_space(text[words[0].start as int]));
        }
        let cuts = choose|cuts: Seq<int>| cut_at(text, words, max_tokens, cuts, chunks);
        if chunks.len() > 0 {
            assert(run_ok(text, words, max_tokens, cuts, chunks, 0));
        }
    }
}

} // verus!
