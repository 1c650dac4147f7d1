use rag_core::chunker::{chunk, Chunk};
use rag_core::error::Error;
use rag_core::point::{Payload, PayloadValue, Point, PointId};
use rag_core::prompt::system_prompt;
use rag_core::retrieval::{
    build_points, context_of, ingest, retrieve, retrieve_by_vector, store_embeddings, Embedding,
};
use rag_core::search::ScoredPoint;
use rag_core::score::Score;
use rag_core::store::VectorStore;
use rag_core::text::decimal_text;

/// A stand-in for the embedding service: the vector of a text holds the
/// numbers of its vowels, of its other letters and of its code points.
fn embed(texts: &Vec<String>) -> Result<Vec<Embedding>, String> {
    Ok(texts
        .iter()
        .enumerate()
        .map(|(i, t)| {
            let vowels = t.chars().filter(|c| "aeiouAEIOU".contains(*c)).count() as i16;
            let letters = t.chars().filter(|c| c.is_alphabetic()).count() as i16;
            Embedding { index: i as u64, vector: vec![vowels, letters - vowels, t.chars().count() as i16] }
        })
        .collect())
}

fn source(store: &VectorStore, name: &str, id: u64) -> String {
    let point = store.get(name, &PointId::Num(id)).unwrap().unwrap();
    match point.payload.as_ref().unwrap().get("source") {
        Some(PayloadValue::Text(t)) => t.clone(),
        other => panic!("no source text: {:?}", other),
    }
}

const TEXT: &str = "Bitcoin is a currency. It has no bank.\n\nA block holds many payments.";

#[test]
fn ingest_stores_one_point_for_each_chunk() {
    let mut store = VectorStore::new();
    let chunks = chunk(TEXT, 8);
    assert!(chunks.len() > 1);
    ingest(&mut store, TEXT, 8, embed, "my_test").unwrap();
    assert_eq!(store.collection_size("my_test"), chunks.len());
    let vectors = embed(&chunks.iter().map(|c| c.text.clone()).collect()).unwrap();
    for c in &chunks {
        assert_eq!(source(&store, "my_test", c.index as u64), c.text);
        let kept = store.get("my_test", &PointId::Num(c.index as u64)).unwrap().unwrap();
        assert_eq!(kept.vector, vectors[c.index].vector);
    }
}

#[test]
fn ingest_of_an_empty_text_is_refused() {
    let mut store = VectorStore::new();
    let r = ingest(&mut store, "  \n ", 8, embed, "my_test");
    assert!(matches!(r, Err(Error::EmptyEmbeddingBatch)));
    assert!(matches!(store.get("my_test", &PointId::Num(0)), Err(Error::UnknownCollection)));
}

#[test]
fn a_failure_of_the_collaborator_is_handed_on() {
    let mut store = VectorStore::new();
    let down = |_: &Vec<String>| Err::<Vec<Embedding>, String>("connection refused".to_string());
    match ingest(&mut store, TEXT, 8, down, "my_test") {
        Err(Error::CollaboratorFailure(message)) => assert_eq!(message, "connection refused"),
        other => panic!("{:?}", other),
    }
    assert!(matches!(store.get("my_test", &PointId::Num(0)), Err(Error::UnknownCollection)));
    match retrieve(&store, "What is bitcoin?", down, "my_test", 3) {
        Err(Error::CollaboratorFailure(message)) => assert_eq!(message, "connection refused"),
        other => panic!("{:?}", other),
    }
}

#[test]
fn an_answer_without_embeddings_is_refused() {
    let mut store = VectorStore::new();
    let none = |_: &Vec<String>| Ok::<Vec<Embedding>, String>(vec![]);
    assert!(matches!(ingest(&mut store, TEXT, 8, none, "my_test"), Err(Error::EmptyEmbeddingBatch)));
    assert!(matches!(store.get("my_test", &PointId::Num(0)), Err(Error::UnknownCollection)));
    assert!(matches!(
        retrieve(&store, "What is bitcoin?", none, "my_test", 3),
        Err(Error::EmptyEmbeddingBatch)
    ));
}

fn chunks_ab() -> Vec<Chunk> {
    vec![
        Chunk { index: 0, text: "a".to_string(), token_count: 1 },
        Chunk { index: 1, text: "b".to_string(), token_count: 1 },
    ]
}

#[test]
fn points_are_keyed_by_the_index_of_their_chunk() {
    let points = build_points(
        &chunks_ab(),
        vec![Embedding { index: 1, vector: vec![5, 6] }, Embedding { index: 0, vector: vec![7, 8] }],
    )
    .unwrap();
    assert_eq!(points.len(), 2);
    assert_eq!(points[0].id, PointId::Num(1));
    assert_eq!(points[0].vector, vec![5, 6]);
    assert_eq!(
        points[0].payload.as_ref().unwrap().get("source"),
        Some(&PayloadValue::Text("b".to_string()))
    );
    assert_eq!(points[1].id, PointId::Num(0));
    assert_eq!(
        points[1].payload.as_ref().unwrap().get("source"),
        Some(&PayloadValue::Text("a".to_string()))
    );
}

#[test]
fn an_embedding_without_a_chunk_is_a_failure_of_the_collaborator() {
    let r = build_points(&chunks_ab(), vec![Embedding { index: 2, vector: vec![5, 6] }]);
    match r {
        Err(Error::CollaboratorFailure(message)) => {
            assert_eq!(message, "an embedding names no chunk")
        },
        other => panic!("{:?}", other.map(|p| p.len())),
    }
    let mut store = VectorStore::new();
    let r = store_embeddings(
        &mut store,
        "c",
        &chunks_ab(),
        vec![Embedding { index: 0, vector: vec![5, 6] }, Embedding { index: 2, vector: vec![5, 6] }],
    );
    assert!(matches!(r, Err(Error::CollaboratorFailure(_))));
    // The collection was made before the points were looked at, and stays.
    assert!(store.get("c", &PointId::Num(0)).unwrap().is_none());
    assert!(matches!(store.create_collection("c", 3), Err(Error::DimensionMismatch)));
}

#[test]
fn embeddings_of_different_lengths_are_refused() {
    let mut store = VectorStore::new();
    let r = store_embeddings(
        &mut store,
        "c",
        &chunks_ab(),
        vec![Embedding { index: 0, vector: vec![5, 6] }, Embedding { index: 1, vector: vec![5] }],
    );
    assert!(matches!(r, Err(Error::DimensionMismatch)));
    assert_eq!(store.collection_size("c"), 0);
    let r = store_embeddings(
        &mut store,
        "d",
        &chunks_ab(),
        vec![Embedding { index: 0, vector: vec![] }],
    );
    assert!(matches!(r, Err(Error::DimensionMismatch)));
    assert!(matches!(store.get("d", &PointId::Num(0)), Err(Error::UnknownCollection)));
    let r = store_embeddings(&mut store, "d", &chunks_ab(), vec![]);
    assert!(matches!(r, Err(Error::EmptyEmbeddingBatch)));
}

#[test]
fn a_collection_of_another_dimension_refuses_the_embeddings() {
    let mut store = VectorStore::new();
    store.create_collection("c", 3).unwrap();
    let r = store_embeddings(
        &mut store,
        "c",
        &chunks_ab(),
        vec![Embedding { index: 0, vector: vec![5, 6] }],
    );
    assert!(matches!(r, Err(Error::DimensionMismatch)));
    assert_eq!(store.collection_size("c"), 0);
}

fn with_source(id: u64, vector: Vec<i16>, text: Option<&str>) -> Point {
    let payload = text.map(|t| {
        let mut p = Payload::new();
        p.insert("source".to_string(), PayloadValue::Text(t.to_string()));
        p
    });
    Point { id: PointId::Num(id), vector, payload }
}

fn library() -> VectorStore {
    let mut store = VectorStore::new();
    store.create_collection("docs", 2).unwrap();
    let mut other = Payload::new();
    other.insert("title".to_string(), PayloadValue::Text("no source".to_string()));
    let mut number = Payload::new();
    number.insert("source".to_string(), PayloadValue::Integer(4));
    store
        .upsert(
            "docs",
            vec![
                with_source(1, vec![0, 9], Some("far")),
                with_source(2, vec![9, 1], Some("near")),
                with_source(3, vec![9, 0], None),
                Point { id: PointId::Num(4), vector: vec![8, 1], payload: Some(other) },
                with_source(5, vec![5, 5], Some("between")),
                Point { id: PointId::Num(6), vector: vec![7, 1], payload: Some(number) },
            ],
        )
        .unwrap();
    store
}

#[test]
fn retrieval_returns_the_sources_in_the_order_of_the_ranking() {
    let store = library();
    assert_eq!(
        retrieve_by_vector(&store, &vec![1, 0], "docs", 6).unwrap(),
        vec!["near".to_string(), "4".to_string(), "between".to_string(), "far".to_string()]
    );
    assert_eq!(
        retrieve_by_vector(&store, &vec![1, 0], "docs", 4).unwrap(),
        vec!["near".to_string(), "4".to_string()]
    );
    assert_eq!(retrieve_by_vector(&store, &vec![1, 0], "docs", 2).unwrap(), vec!["near".to_string()]);
    assert_eq!(retrieve_by_vector(&store, &vec![1, 0], "docs", 1).unwrap(), Vec::<String>::new());
    let query = |_: &Vec<String>| Ok(vec![Embedding { index: 0, vector: vec![0, 1] }]);
    assert_eq!(
        retrieve(&store, "What is far?", query, "docs", 2).unwrap(),
        vec!["far".to_string(), "between".to_string()]
    );
}

#[test]
fn retrieval_reports_what_the_search_reports() {
    let store = library();
    assert!(matches!(
        retrieve_by_vector(&store, &vec![1, 0], "none", 3),
        Err(Error::UnknownCollection)
    ));
    assert!(matches!(
        retrieve_by_vector(&store, &vec![1, 0, 0], "docs", 3),
        Err(Error::DimensionMismatch)
    ));
}

#[test]
fn the_query_text_is_what_the_collaborator_is_asked_about() {
    let store = library();
    let echo = |texts: &Vec<String>| {
        if texts.len() == 1 && texts[0] == "What is bitcoin?" {
            Ok(vec![Embedding { index: 0, vector: vec![1, 0] }])
        } else {
            Err(format!("asked about {:?}", texts))
        }
    };
    assert_eq!(
        retrieve(&store, "What is bitcoin?", echo, "docs", 2).unwrap(),
        vec!["near".to_string()]
    );
}

fn with_value(id: u64, key: &str, value: PayloadValue) -> ScoredPoint {
    let mut payload = Payload::new();
    payload.insert(key.to_string(), value);
    ScoredPoint {
        point: Point { id: PointId::Num(id), vector: vec![1], payload: Some(payload) },
        score: Score { dot: 0, query_norm_sq: 1, point_norm_sq: 1 },
    }
}

#[test]
fn context_is_taken_from_the_points_that_have_a_source() {
    let zero = Score { dot: 0, query_norm_sq: 1, point_norm_sq: 1 };
    let results = vec![
        ScoredPoint { point: with_source(1, vec![1], Some("one")), score: zero },
        ScoredPoint { point: with_source(2, vec![1], None), score: zero },
        ScoredPoint { point: with_source(3, vec![1], Some("three")), score: zero },
        with_value(4, "title", PayloadValue::Text("no source".to_string())),
    ];
    assert_eq!(context_of(&results), vec!["one".to_string(), "three".to_string()]);
    assert_eq!(context_of(&vec![]), Vec::<String>::new());
}

#[test]
fn a_source_that_is_no_text_is_written_as_one() {
    let results = vec![
        with_value(1, "source", PayloadValue::Integer(42)),
        with_value(2, "source", PayloadValue::Flag(true)),
        with_value(3, "source", PayloadValue::Text(String::new())),
        with_value(4, "source", PayloadValue::Flag(false)),
        with_value(5, "source", PayloadValue::Integer(-7)),
    ];
    assert_eq!(
        context_of(&results),
        vec![
            "42".to_string(),
            "true".to_string(),
            String::new(),
            "false".to_string(),
            "-7".to_string(),
        ]
    );
}

#[test]
fn integers_are_written_in_decimal_notation() {
    for n in [0, 1, 9, 10, 11, 99, 100, 1_234_567_890, i64::MAX, -1, -10, -109, i64::MIN] {
        assert_eq!(PayloadValue::Integer(n).to_text(), n.to_string());
        assert_eq!(decimal_text(n), n.to_string());
    }
    assert_eq!(decimal_text(i64::MIN), "-9223372036854775808");
    assert_eq!(decimal_text(i64::MAX), "9223372036854775807");
    assert_eq!(decimal_text(0), "0");
    assert_eq!(PayloadValue::Text("as it is".to_string()).to_text(), "as it is");
    assert_eq!(PayloadValue::Flag(true).to_text(), "true");
    assert_eq!(PayloadValue::Flag(false).to_text(), "false");
}

#[test]
fn ingest_then_retrieve_finds_the_chunk_asked_for() {
    let mut store = VectorStore::new();
    ingest(&mut store, TEXT, 8, embed, "my_test").unwrap();
    let chunks = chunk(TEXT, 8);
    let wanted = &chunks[1];
    let found = retrieve(&store, &wanted.text, embed, "my_test", 1).unwrap();
    assert_eq!(found, vec![wanted.text.clone()]);
}

#[test]
fn the_system_prompt_holds_the_context() {
    let prompt = system_prompt(&vec!["first piece".to_string(), "second piece \n".to_string()]);
    assert_eq!(
        prompt,
        "Use the following pieces of context to answer the user's question.\nIf you don't know the answer, just say that you don't know, don't try to make up an answer.\n----------------\nfirst piece\n\nsecond piece"
    );
    assert_eq!(
        system_prompt(&vec![]),
        "Use the following pieces of context to answer the user's question.\nIf you don't know the answer, just say that you don't know, don't try to make up an answer.\n----------------\n"
    );
}
