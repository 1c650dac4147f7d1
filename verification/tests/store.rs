use rag_core::error::Error;
use rag_core::point::{Payload, PayloadValue, Point, PointId};
use rag_core::score::{cosine, dot_product, Score};
use rag_core::store::VectorStore;

fn point(id: u64, vector: Vec<i16>) -> Point {
    Point { id: PointId::Num(id), vector, payload: None }
}

fn named(id: &str, vector: Vec<i16>) -> Point {
    Point { id: PointId::Uuid(id.to_string()), vector, payload: None }
}

fn docs() -> VectorStore {
    let mut store = VectorStore::new();
    store.create_collection("docs", 3).unwrap();
    store
        .upsert(
            "docs",
            vec![point(1, vec![10, 0, 0]), point(2, vec![0, 10, 0]), point(3, vec![9, 1, 0])],
        )
        .unwrap();
    store
}

fn as_float(score: &Score) -> f64 {
    if score.query_norm_sq == 0 || score.point_norm_sq == 0 {
        0.0
    } else {
        score.dot as f64
            / ((score.query_norm_sq as f64).sqrt() * (score.point_norm_sq as f64).sqrt())
    }
}

fn ids(store: &VectorStore, name: &str, query: &Vec<i16>, limit: usize) -> Vec<PointId> {
    store.search(name, query, limit).unwrap().into_iter().map(|s| s.point.id).collect()
}

#[test]
fn search_returns_the_two_nearest_points() {
    let store = docs();
    let found = store.search("docs", &vec![10, 0, 0], 2).unwrap();
    assert_eq!(found.len(), 2);
    assert_eq!(found[0].point.id, PointId::Num(1));
    assert_eq!(found[0].point.vector, vec![10, 0, 0]);
    assert_eq!(as_float(&found[0].score), 1.0);
    assert_eq!(found[1].point.id, PointId::Num(3));
    assert_eq!(found[1].point.vector, vec![9, 1, 0]);
    assert!((as_float(&found[1].score) - 0.994).abs() < 1e-3);
}

#[test]
fn delete_of_a_missing_id_changes_nothing() {
    let mut store = docs();
    assert!(store.delete("docs", &vec![PointId::Num(99)]).is_ok());
    assert_eq!(store.collection_size("docs"), 3);
    assert_eq!(store.get("docs", &PointId::Num(1)).unwrap().unwrap().vector, vec![10, 0, 0]);
    assert_eq!(store.get("docs", &PointId::Num(2)).unwrap().unwrap().vector, vec![0, 10, 0]);
    assert_eq!(store.get("docs", &PointId::Num(3)).unwrap().unwrap().vector, vec![9, 1, 0]);
}

#[test]
fn upsert_of_a_wrong_dimension_is_refused() {
    let mut store = docs();
    let r = store.upsert("docs", vec![point(4, vec![1, 2, 3]), point(1, vec![1, 2, 3, 4])]);
    assert!(matches!(r, Err(Error::DimensionMismatch)));
    assert_eq!(store.collection_size("docs"), 3);
    assert!(store.get("docs", &PointId::Num(4)).unwrap().is_none());
    assert_eq!(store.get("docs", &PointId::Num(1)).unwrap().unwrap().vector, vec![10, 0, 0]);
    assert_eq!(store.get("docs", &PointId::Num(2)).unwrap().unwrap().vector, vec![0, 10, 0]);
    assert_eq!(store.get("docs", &PointId::Num(3)).unwrap().unwrap().vector, vec![9, 1, 0]);
}

#[test]
fn creating_a_collection_twice_changes_nothing() {
    let mut store = docs();
    assert!(store.create_collection("docs", 3).is_ok());
    assert_eq!(store.collection_size("docs"), 3);
    assert_eq!(store.get("docs", &PointId::Num(3)).unwrap().unwrap().vector, vec![9, 1, 0]);
    assert!(store.upsert("docs", vec![point(4, vec![1, 1, 1])]).is_ok());
}

#[test]
fn creating_a_collection_with_another_dimension_is_refused() {
    let mut store = docs();
    assert!(matches!(store.create_collection("docs", 4), Err(Error::DimensionMismatch)));
    assert_eq!(store.collection_size("docs"), 3);
    assert!(store.upsert("docs", vec![point(4, vec![1, 1, 1])]).is_ok());
}

#[test]
fn the_last_write_wins() {
    let mut store = docs();
    store.upsert("docs", vec![point(2, vec![1, 2, 3])]).unwrap();
    store.upsert("docs", vec![point(2, vec![4, 5, 6])]).unwrap();
    assert_eq!(store.get("docs", &PointId::Num(2)).unwrap().unwrap().vector, vec![4, 5, 6]);
    assert_eq!(store.collection_size("docs"), 3);
    store.upsert("docs", vec![point(2, vec![7, 7, 7]), point(2, vec![8, 8, 8])]).unwrap();
    assert_eq!(store.get("docs", &PointId::Num(2)).unwrap().unwrap().vector, vec![8, 8, 8]);
    assert_eq!(store.collection_size("docs"), 3);
}

#[test]
fn upsert_replaces_the_payload_too() {
    let mut store = docs();
    let mut payload = Payload::new();
    payload.insert("source".to_string(), PayloadValue::Text("first".to_string()));
    store
        .upsert(
            "docs",
            vec![Point { id: PointId::Num(1), vector: vec![1, 1, 1], payload: Some(payload) }],
        )
        .unwrap();
    let kept = store.get("docs", &PointId::Num(1)).unwrap().unwrap();
    assert_eq!(
        kept.payload.as_ref().unwrap().get("source"),
        Some(&PayloadValue::Text("first".to_string()))
    );
    store.upsert("docs", vec![point(1, vec![2, 2, 2])]).unwrap();
    assert!(store.get("docs", &PointId::Num(1)).unwrap().unwrap().payload.is_none());
}

#[test]
fn an_unknown_collection_is_an_error() {
    let mut store = docs();
    assert!(matches!(store.upsert("none", vec![]), Err(Error::UnknownCollection)));
    assert!(matches!(store.delete("none", &vec![]), Err(Error::UnknownCollection)));
    assert!(matches!(store.get("none", &PointId::Num(1)), Err(Error::UnknownCollection)));
    assert!(matches!(store.search("none", &vec![1, 0, 0], 1), Err(Error::UnknownCollection)));
    assert_eq!(store.collection_size("none"), 0);
}

#[test]
fn get_of_a_missing_id_is_none() {
    let store = docs();
    assert!(store.get("docs", &PointId::Num(9)).unwrap().is_none());
    assert!(store.get("docs", &PointId::Uuid("1".to_string())).unwrap().is_none());
}

#[test]
fn delete_takes_out_the_points_named() {
    let mut store = docs();
    store.delete("docs", &vec![PointId::Num(3), PointId::Num(7), PointId::Num(1)]).unwrap();
    assert_eq!(store.collection_size("docs"), 1);
    assert!(store.get("docs", &PointId::Num(1)).unwrap().is_none());
    assert!(store.get("docs", &PointId::Num(3)).unwrap().is_none());
    assert_eq!(store.get("docs", &PointId::Num(2)).unwrap().unwrap().vector, vec![0, 10, 0]);
}

#[test]
fn search_with_a_query_of_another_length_is_refused() {
    let store = docs();
    assert!(matches!(store.search("docs", &vec![1, 0], 2), Err(Error::DimensionMismatch)));
    assert!(matches!(store.search("docs", &vec![1, 0, 0, 0], 2), Err(Error::DimensionMismatch)));
}

#[test]
fn search_returns_no_more_than_the_limit_and_the_best_first() {
    let store = docs();
    for limit in 0..6 {
        let found = store.search("docs", &vec![3, 4, 0], limit).unwrap();
        assert_eq!(found.len(), limit.min(3));
        for pair in found.windows(2) {
            assert!(as_float(&pair[0].score) >= as_float(&pair[1].score));
            assert!(!pair[0].score.is_below(&pair[1].score));
        }
    }
    assert_eq!(
        ids(&store, "docs", &vec![3, 4, 0], 5),
        vec![PointId::Num(2), PointId::Num(3), PointId::Num(1)]
    );
}

#[test]
fn a_stored_vector_is_the_best_answer_to_itself() {
    let mut store = docs();
    store.upsert("docs", vec![point(7, vec![3, -4, 12])]).unwrap();
    let found = store.search("docs", &vec![3, -4, 12], 1).unwrap();
    assert_eq!(found[0].point.id, PointId::Num(7));
    assert_eq!(found[0].score, Score { dot: 169, query_norm_sq: 169, point_norm_sq: 169 });
    assert_eq!(as_float(&found[0].score), 1.0);
}

#[test]
fn equal_scores_are_ordered_by_identifier() {
    let mut store = VectorStore::new();
    store.create_collection("ties", 2).unwrap();
    store
        .upsert(
            "ties",
            vec![
                named("b", vec![2, 0]),
                point(20, vec![3, 0]),
                named("ab", vec![1, 0]),
                point(3, vec![5, 0]),
                named("a", vec![7, 0]),
                point(100, vec![0, 1]),
            ],
        )
        .unwrap();
    assert_eq!(
        ids(&store, "ties", &vec![1, 0], 10),
        vec![
            PointId::Num(3),
            PointId::Num(20),
            PointId::Uuid("a".to_string()),
            PointId::Uuid("ab".to_string()),
            PointId::Uuid("b".to_string()),
            PointId::Num(100),
        ]
    );
    assert_eq!(ids(&store, "ties", &vec![1, 0], 2), vec![PointId::Num(3), PointId::Num(20)]);
}

#[test]
fn opposite_vectors_rank_last() {
    let mut store = VectorStore::new();
    store.create_collection("signs", 2).unwrap();
    store
        .upsert(
            "signs",
            vec![
                point(1, vec![-1, 0]),
                point(2, vec![0, 1]),
                point(3, vec![-2, -1]),
                point(4, vec![1, 1]),
                point(5, vec![0, 0]),
            ],
        )
        .unwrap();
    assert_eq!(
        ids(&store, "signs", &vec![1, 0], 5),
        vec![PointId::Num(4), PointId::Num(2), PointId::Num(5), PointId::Num(3), PointId::Num(1)]
    );
    let found = store.search("signs", &vec![1, 0], 5).unwrap();
    assert_eq!(as_float(&found[2].score), 0.0);
    assert_eq!(found[4].score, Score { dot: -1, query_norm_sq: 1, point_norm_sq: 1 });
}

#[test]
fn a_query_without_length_scores_zero_everywhere() {
    let store = docs();
    let found = store.search("docs", &vec![0, 0, 0], 3).unwrap();
    let order: Vec<PointId> = found.iter().map(|s| PointId::Num(num(&s.point.id))).collect();
    assert_eq!(order, vec![PointId::Num(1), PointId::Num(2), PointId::Num(3)]);
    for s in &found {
        assert_eq!(as_float(&s.score), 0.0);
    }
}

fn num(id: &PointId) -> u64 {
    match id {
        PointId::Num(n) => *n,
        PointId::Uuid(_) => panic!("a number was expected"),
    }
}

#[test]
fn scores_are_compared_without_rounding() {
    // 10^9 / sqrt(10^18 + 1) and 1 differ by less than a float can tell.
    let near = cosine(&vec![30000, 30000], &vec![30000, 29999]);
    let one = cosine(&vec![30000, 30000], &vec![1, 1]);
    assert!(near.is_below(&one));
    assert!(!one.is_below(&near));
    assert!(!one.is_below(&one));
    assert_eq!(dot_product(&vec![1, -2, 3], &vec![4, 5, -6]), -24);
    assert_eq!(dot_product(&vec![-32768, 32767], &vec![-32768, 32767]), 2147418113);
    let big = Score { dot: i64::MIN, query_norm_sq: u64::MAX, point_norm_sq: u64::MAX };
    let small = Score { dot: i64::MAX, query_norm_sq: u64::MAX, point_norm_sq: u64::MAX - 1 };
    assert!(big.is_below(&small));
    assert!(!small.is_below(&big));
}

#[test]
fn identifiers_are_ordered_numbers_first() {
    let a = PointId::Num(u64::MAX);
    let b = PointId::Uuid(String::new());
    assert!(a.precedes(&b));
    assert!(!b.precedes(&a));
    assert!(PointId::Num(2).precedes(&PointId::Num(10)));
    assert!(PointId::Uuid("10".to_string()).precedes(&PointId::Uuid("2".to_string())));
    assert!(PointId::Uuid("a".to_string()).precedes(&PointId::Uuid("aa".to_string())));
    assert!(PointId::Uuid("z".to_string()).precedes(&PointId::Uuid("é".to_string())));
    assert!(!PointId::Uuid("a".to_string()).precedes(&PointId::Uuid("a".to_string())));
    assert!(PointId::Uuid("a".to_string()).same(&PointId::Uuid("a".to_string())));
    assert!(!PointId::Num(1).same(&PointId::Uuid("1".to_string())));
}

#[test]
fn payload_keeps_the_last_value_of_a_key() {
    let mut p = Payload::new();
    p.insert("source".to_string(), PayloadValue::Text("a".to_string()));
    p.insert("n".to_string(), PayloadValue::Integer(7));
    p.insert("source".to_string(), PayloadValue::Text("b".to_string()));
    p.insert("ok".to_string(), PayloadValue::Flag(true));
    assert_eq!(p.get("source"), Some(&PayloadValue::Text("b".to_string())));
    assert_eq!(p.get("n"), Some(&PayloadValue::Integer(7)));
    assert_eq!(p.get("ok"), Some(&PayloadValue::Flag(true)));
    assert_eq!(p.get("m"), None);
    let q = p.clone();
    assert_eq!(q.get("source"), Some(&PayloadValue::Text("b".to_string())));
}

#[test]
fn a_new_store_is_empty() {
    let store = VectorStore::new();
    assert_eq!(store.collection_size("docs"), 0);
    assert!(matches!(store.get("docs", &PointId::Num(1)), Err(Error::UnknownCollection)));
}

#[test]
fn errors_have_messages() {
    assert_eq!(Error::UnknownCollection.message(), "unknown collection");
    assert_eq!(Error::DimensionMismatch.message(), "dimension mismatch");
    assert_eq!(Error::EmptyEmbeddingBatch.message(), "empty embedding batch");
    assert_eq!(Error::CollaboratorFailure("down".to_string()).message(), "down");
}
