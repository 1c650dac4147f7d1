use vstd::prelude::*;
use crate::chunker::{chunk, chunk_texts, chunk_views, chunked, texts_of, Chunk, ChunkView};
use crate::collection::point_views;
use crate::error::{Error, ErrorView};
use crate::point::{
    value_text, Payload, PayloadValue, PayloadValueView, Point, PointId, PointIdView, PointView,
};
use crate::search::{is_top_ranked, scored_views, ScoredPoint, ScoredPointView};
use crate::store::{
    after_create, after_upsert, create_outcome, upsert_outcome, StoreModel, VectorStore,
};

verus! {

/// One answer of the embedding collaborator: the vector for the text at
/// the place `index` of the batch it was asked about.
#[derive(Debug, PartialEq, Eq)]
pub struct Embedding {
    pub index: u64,
    pub vector: Vec<i16>,
}

/// What an [`Embedding`] stands for.
pub struct EmbeddingView {
    pub index: u64,
    pub vector: Seq<i16>,
}

impl View for Embedding {
    type V = EmbeddingView;

    open spec fn view(&self) -> EmbeddingView {
        EmbeddingView { index: self.index, vector: self.vector@ }
    }
}

/// The plain values of a list of embeddings.
pub open spec fn embedding_views(s: Seq<Embedding>) -> Seq<EmbeddingView> {
    s.map_values(|e: Embedding| e@)
}

/// The payload key under which a point keeps the text of its chunk.
pub open spec fn source_key() -> Seq<char> {
    "source"@
}

/// The message of the failure that an embedding without a chunk makes.
pub open spec fn stray_index() -> Seq<char> {
    "an embedding names no chunk"@
}

/// What a result without a value stands for.
pub open spec fn outcome_view(r: Result<(), Error>) -> Result<(), ErrorView> {
    match r {
        Ok(_) => Ok(()),
        Err(e) => Err(e@),
    }
}

/// What a result that holds texts stands for.
pub open spec fn context_view(r: Result<Vec<String>, Error>) -> Result<Seq<Seq<char>>, ErrorView> {
    match r {
        Ok(texts) => Ok(texts_of(texts@)),
        Err(e) => Err(e@),
    }
}

/// Every embedding names a chunk.
pub open spec fn indices_ok(chunks: Seq<ChunkView>, embeddings: Seq<EmbeddingView>) -> bool {
    forall|i: int| 0 <= i < embeddings.len() ==> (#[trigger] embeddings[i]).index < chunks.len()
}

/// The point that stands for an embedding: it is kept under the index of
/// its chunk, and its payload binds `source` to the text of that chunk.
pub open spec fn point_for(chunks: Seq<ChunkView>, e: EmbeddingView) -> PointView {
    PointView {
        id: PointIdView::Num(e.index),
        vector: e.vector,
        payload: Some(
            Map::<Seq<char>, PayloadValueView>::empty().insert(
                source_key(),
                PayloadValueView::Text(chunks[e.index as int].text),
            ),
        ),
    }
}

/// The points that stand for a list of embeddings, in its order.
pub open spec fn points_for(chunks: Seq<ChunkView>, embeddings: Seq<EmbeddingView>) -> Seq<
    PointView,
> {
    Seq::new(embeddings.len(), |i: int| point_for(chunks, embeddings[i]))
}

/// Makes the points that stand for the embeddings of a list of chunks. An
/// embedding that names no chunk is a failure of the collaborator.
pub fn build_points(chunks: &Vec<Chunk>, embeddings: Vec<Embedding>) -> (r: Result<
    Vec<Point>,
    Error,
>)
    ensures
        indices_ok(chunk_views(chunks@), embedding_views(embeddings@)) ==> r is Ok && point_views(
            r->Ok_0@,
        ) == points_for(chunk_views(chunks@), embedding_views(embeddings@)),
        !indices_ok(chunk_views(chunks@), embedding_views(embeddings@)) ==> r is Err && r->Err_0@
            == ErrorView::CollaboratorFailure(stray_index()),
{
    let ghost cs = chunk_views(chunks@);
    let ghost es = embedding_views(embeddings@);
    let mut points: Vec<Point> = Vec::new();
    for e in it: embeddings
        invariant
            cs == chunk_views(chunks@),
            embedding_views(it.seq()) == es,
            points@.len() == it.index(),
            forall|j: int| 0 <= j < it.index() ==> (#[trigger] es[j]).index < cs.len(),
            forall|j: int| 0 <= j < it.index() ==> (#[trigger] points@[j])@ == point_for(cs, es[j]),
    {
        assert(e@ == es[it.index()]);
        if e.index >= chunks.len() as u64 {
            return Err(
                Error::CollaboratorFailure(String::from_str("an embedding names no chunk")),
            );
        }
        let at = e.index as usize;
        assert(cs[at as int] == chunks@[at as int]@);
        let mut payload = Payload::new();
        payload.insert(String::from_str("source"), PayloadValue::Text(chunks[at].text.clone()));
        points.push(Point { id: PointId::Num(e.index), vector: e.vector, payload: Some(payload) });
    }
    assert(point_views(points@) =~= points_for(cs, es));
    Ok(points)
}

/// What storing the embeddings of a list of chunks does to the store, and
/// what it answers. The collection is made for the length of the first
/// vector; a collection that was made stays even if the points are then
/// refused.
pub open spec fn store_outcome(
    store: StoreModel,
    name: Seq<char>,
    chunks: Seq<ChunkView>,
    embeddings: Seq<EmbeddingView>,
) -> (StoreModel, Result<(), ErrorView>) {
    if embeddings.len() == 0 {
        (store, Err(ErrorView::EmptyEmbeddingBatch))
    } else {
        let length = embeddings[0].vector.len();
        if length == 0 || length > u32::MAX {
            (store, Err(ErrorView::DimensionMismatch))
        } else if create_outcome(store, name, length as u32) is Err {
            (store, Err(ErrorView::DimensionMismatch))
        } else {
            let made = after_create(store, name, length as u32);
            if !indices_ok(chunks, embeddings) {
                (made, Err(ErrorView::CollaboratorFailure(stray_index())))
            } else {
                let points = points_for(chunks, embeddings);
                (after_upsert(made, name, points), outcome_view(upsert_outcome(made, name, points)))
            }
        }
    }
}

/// Stores the embeddings of a list of chunks: makes sure that the
/// collection exists with the length of the first vector as its dimension,
/// and puts one point for each embedding into it.
pub fn store_embeddings(
    store: &mut VectorStore,
    collection_name: &str,
    chunks: &Vec<Chunk>,
    embeddings: Vec<Embedding>,
) -> (r: Result<(), Error>)
    requires
        old(store).wf(),
    ensures
        final(store).wf(),
        (final(store)@, outcome_view(r)) == store_outcome(
            old(store)@,
            collection_name@,
            chunk_views(chunks@),
            embedding_views(embeddings@),
        ),
{
    if embeddings.len() == 0 {
        return Err(Error::EmptyEmbeddingBatch);
    }
    let length = embeddings[0].vector.len();
    assert(embedding_views(embeddings@)[0] == embeddings@[0]@);
    if length == 0 || length > u32::MAX as usize {
        return Err(Error::DimensionMismatch);
    }
    match store.create_collection(collection_name, length as u32) {
        Err(e) => {
            return Err(e);
        },
        Ok(_) => {},
    }
    match build_points(chunks, embeddings) {
        Err(e) => Err(e),
        Ok(points) => store.upsert(collection_name, points),
    }
}

/// What an ingestion of `chunks` does, whatever the collaborator answers:
/// without chunks nothing is asked and nothing stored; a failure of the
/// collaborator is handed on with its message and nothing is stored; and
/// what it answers is stored.
pub open spec fn ingested<F: Fn(&Vec<String>) -> Result<Vec<Embedding>, String>>(
    before: StoreModel,
    after: StoreModel,
    r: Result<(), ErrorView>,
    name: Seq<char>,
    chunks: Seq<ChunkView>,
    embed_fn: F,
) -> bool {
    if chunks.len() == 0 {
        after == before && r == Err::<(), ErrorView>(ErrorView::EmptyEmbeddingBatch)
    } else {
        exists|texts: Vec<String>, answer: Result<Vec<Embedding>, String>|
            {
                &&& texts_of(texts@) == chunk_texts(chunks)
                &&& #[trigger] call_ensures(embed_fn, (&texts,), answer)
                &&& match answer {
                    Err(message) => after == before && r == Err::<(), ErrorView>(
                        ErrorView::CollaboratorFailure(message@),
                    ),
                    Ok(embeddings) => (after, r) == store_outcome(
                        before,
                        name,
                        chunks,
                        embedding_views(embeddings@),
                    ),
                }
            }
    }
}

/// Cuts `text` into chunks, asks `embed_fn` once for the embeddings of all
/// of them, and stores one point for each embedding in the collection
/// `collection_name`, which is made for the length of the first vector if
/// it does not exist.
pub fn ingest<F: Fn(&Vec<String>) -> Result<Vec<Embedding>, String>>(
    store: &mut VectorStore,
    text: &str,
    max_tokens: usize,
    embed_fn: F,
    collection_name: &str,
) -> (r: Result<(), Error>)
    requires
        old(store).wf(),
        forall|texts: &Vec<String>| call_requires(embed_fn, (texts,)),
    ensures
        final(store).wf(),
        exists|chunks: Seq<ChunkView>| #[trigger]
            chunked(text@, max_tokens, chunks) && ingested(
                old(store)@,
                final(store)@,
                outcome_view(r),
                collection_name@,
                chunks,
                embed_fn,
            ),
{
    let chunks = chunk(text, max_tokens);
    let ghost cs = chunk_views(chunks@);
    if chunks.len() == 0 {
        return Err(Error::EmptyEmbeddingBatch);
    }
    let texts = texts_of_chunks(&chunks);
    let answer = embed_fn(&texts);
    match answer {
        Err(message) => {
            let r = Err(Error::CollaboratorFailure(message));
            assert(ingested(store@, store@, outcome_view(r), collection_name@, cs, embed_fn));
            r
        },
        Ok(embeddings) => {
            let r = store_embeddings(store, collection_name, &chunks, embeddings);
            assert(ingested(
                old(store)@,
                store@,
                outcome_view(r),
                collection_name@,
                cs,
                embed_fn,
            ));
            r
        },
    }
}

/// The texts of a list of chunks, in its order.
pub fn texts_of_chunks(chunks: &Vec<Chunk>) -> (texts: Vec<String>)
    ensures
        texts_of(texts@) == chunk_texts(chunk_views(chunks@)),
{
    let mut texts: Vec<String> = Vec::new();
    let mut i: usize = 0;
    while i < chunks.len()
        invariant
            i <= chunks.len(),
            texts@.len() == i,
            forall|j: int| 0 <= j < i ==> (#[trigger] texts@[j])@ == chunks@[j].text@,
        decreases chunks.len() - i,
    {
        texts.push(chunks[i].text.clone());
        i = i + 1;
    }
    assert(texts_of(texts@) =~= chunk_texts(chunk_views(chunks@)));
    texts
}

/// What a point keeps under `source`, as a text, if it has that key.
pub open spec fn source_of(p: PointView) -> Option<Seq<char>> {
    match p.payload {
        Some(payload) => if payload.contains_key(source_key()) {
            Some(value_text(payload[source_key()]))
        } else {
            None
        },
        None => None,
    }
}

/// What the points of a search result keep under `source`, as texts and in
/// the order of the result: one text for each point that has the key. A
/// point without a payload or without the key is passed over.
pub open spec fn sources(r: Seq<ScoredPointView>) -> Seq<Seq<char>>
    decreases r.len(),
{
    if r.len() == 0 {
        Seq::empty()
    } else {
        match source_of(r.last().point) {
            Some(t) => sources(r.drop_last()).push(t),
            None => sources(r.drop_last()),
        }
    }
}

/// There is at most one source for each point of a search result.
pub proof fn lemma_sources_len(r: Seq<ScoredPointView>)
    ensures
        sources(r).len() <= r.len(),
    decreases r.len(),
{
    if r.len() > 0 {
        lemma_sources_len(r.drop_last());
    }
}

/// Collects the context of an answer: what the points of a search result
/// keep under `source`, as texts, best first.
pub fn context_of(results: &Vec<ScoredPoint>) -> (context: Vec<String>)
    ensures
        texts_of(context@) == sources(scored_views(results@)),
        context@.len() <= results@.len(),
{
    let ghost all = scored_views(results@);
    let mut context: Vec<String> = Vec::new();
    let mut i: usize = 0;
    assert(all.take(0) =~= Seq::<ScoredPointView>::empty());
    while i < results.len()
        invariant
            all == scored_views(results@),
            i <= results.len(),
            texts_of(context@) == sources(all.take(i as int)),
        decreases results.len() - i,
    {
        let ghost before = texts_of(context@);
        assert(all.take(i + 1).drop_last() =~= all.take(i as int));
        assert(all.take(i + 1).last() == results@[i as int]@);
        match &results[i].point.payload {
            Some(payload) => {
                match payload.get("source") {
                    Some(value) => {
                        let t = value.to_text();
                        context.push(t);
                        assert(texts_of(context@) =~= before.push(value_text(value@)));
                    },
                    None => {},
                }
            },
            None => {},
        }
        i = i + 1;
    }
    assert(all.take(i as int) =~= all);
    proof {
        lemma_sources_len(all);
        assert(texts_of(context@).len() == context@.len());
    }
    context
}

/// What a retrieval with the query vector `query` answers.
pub open spec fn retrieved(
    store: StoreModel,
    name: Seq<char>,
    query: Seq<i16>,
    top_k: usize,
    r: Result<Seq<Seq<char>>, ErrorView>,
) -> bool {
    if !store.contains_key(name) {
        r == Err::<Seq<Seq<char>>, ErrorView>(ErrorView::UnknownCollection)
    } else if query.len() != store[name].dimension {
        r == Err::<Seq<Seq<char>>, ErrorView>(ErrorView::DimensionMismatch)
    } else {
        r is Ok && exists|results: Seq<ScoredPointView>| #[trigger]
            is_top_ranked(store[name].points, query, top_k as int, results) && r->Ok_0 == sources(
                results,
            )
    }
}

/// Searches the collection `collection_name` for the `top_k` points
/// nearest to `query` and returns their source texts, best first.
pub fn retrieve_by_vector(
    store: &VectorStore,
    query: &Vec<i16>,
    collection_name: &str,
    top_k: usize,
) -> (r: Result<Vec<String>, Error>)
    requires
        store.wf(),
    ensures
        retrieved(store@, collection_name@, query@, top_k, context_view(r)),
{
    match store.search(collection_name, query, top_k) {
        Err(e) => Err(e),
        Ok(results) => {
            let context = context_of(&results);
            let r = Ok(context);
            assert(is_top_ranked(
                store@[collection_name@].points,
                query@,
                top_k as int,
                scored_views(results@),
            ));
            r
        },
    }
}

/// What a retrieval does, whatever the collaborator answers: a failure of
/// the collaborator is handed on with its message; an answer without an
/// embedding is refused; and the first embedding is the query of the
/// search.
pub open spec fn retrieval<F: Fn(&Vec<String>) -> Result<Vec<Embedding>, String>>(
    store: StoreModel,
    query_text: Seq<char>,
    embed_fn: F,
    name: Seq<char>,
    top_k: usize,
    r: Result<Seq<Seq<char>>, ErrorView>,
) -> bool {
    exists|texts: Vec<String>, answer: Result<Vec<Embedding>, String>|
        {
            &&& texts_of(texts@) == seq![query_text]
            &&& #[trigger] call_ensures(embed_fn, (&texts,), answer)
            &&& match answer {
                Err(message) => r == Err::<Seq<Seq<char>>, ErrorView>(
                    ErrorView::CollaboratorFailure(message@),
                ),
                Ok(embeddings) => if embeddings@.len() == 0 {
                    r == Err::<Seq<Seq<char>>, ErrorView>(ErrorView::EmptyEmbeddingBatch)
                } else {
                    retrieved(store, name, embeddings@[0].vector@, top_k, r)
                },
            }
        }
}

/// Asks `embed_fn` for the embedding of `query_text`, searches the
/// collection `collection_name` for the `top_k` points nearest to it, and
/// returns their source texts, best first.
pub fn retrieve<F: Fn(&Vec<String>) -> Result<Vec<Embedding>, String>>(
    store: &VectorStore,
    query_text: &str,
    embed_fn: F,
    collection_name: &str,
    top_k: usize,
) -> (r: Result<Vec<String>, Error>)
    requires
        store.wf(),
        forall|texts: &Vec<String>| call_requires(embed_fn, (texts,)),
    ensures
        retrieval(store@, query_text@, embed_fn, collection_name@, top_k, context_view(r)),
{
    let mut texts: Vec<String> = Vec::new();
    texts.push(String::from_str(query_text));
    assert(texts_of(texts@) =~= seq![query_text@]);
    let answer = embed_fn(&texts);
    match answer {
        Err(message) => Err(Error::CollaboratorFailure(message)),
        Ok(embeddings) => {
            if embeddings.len() == 0 {
                Err(Error::EmptyEmbeddingBatch)
            } else {
                retrieve_by_vector(store, &embeddings[0].vector, collection_name, top_k)
            }
        },
    }
}

} // verus!
