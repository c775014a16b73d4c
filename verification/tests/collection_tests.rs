use qdrant::api::{
    get_point_core, get_vectors_core, list_collections, update_points_core, PointRequest,
    TableOfContent, UpdateParam,
};
use qdrant::collection::{Collection, UpdateStatus};
use qdrant::operations::{CollectionUpdateOperations, PayloadOps, PointOps};
use qdrant::segment::{Distance, SegmentConfig};
use qdrant::types::{Payload, PayloadValue, ScalarValue, StorageError};

fn config(dim: usize) -> SegmentConfig {
    SegmentConfig { vector_size: dim, distance: Distance::Dot, full_scan_threshold: 16 }
}

fn upsert(ids: Vec<u64>, vectors: Vec<Vec<i32>>) -> CollectionUpdateOperations {
    CollectionUpdateOperations::PointOperation(PointOps::UpsertPoints { ids, vectors })
}

fn delete(ids: Vec<u64>) -> CollectionUpdateOperations {
    CollectionUpdateOperations::PointOperation(PointOps::DeletePoints { ids })
}

fn set_payload(key: &str, value: &str, points: Vec<u64>) -> CollectionUpdateOperations {
    let mut payload = Payload::new();
    payload.set(key.to_string(), PayloadValue::Scalar(ScalarValue::Keyword(value.to_string())));
    CollectionUpdateOperations::PayloadOperation(PayloadOps::SetPayload { payload, points })
}

fn clear_payload(points: Vec<u64>) -> CollectionUpdateOperations {
    CollectionUpdateOperations::PayloadOperation(PayloadOps::ClearPayload { points })
}

// The fixed-point representation of the floating-point coordinates used at
// the boundary: four decimal digits of fraction.
fn coord(x: f64) -> i32 {
    (x * 10_000.0) as i32
}

#[test]
fn upsert_then_retrieve_round_trip() {
    let mut c = Collection::new(config(2), 2);
    let vector = vec![coord(1.0), coord(0.0)];
    c.update(upsert(vec![7], vec![vector.clone()]), true).unwrap();
    c.update(set_payload("city", "berlin", vec![7]), true).unwrap();
    let records = c.retrieve(&vec![7], true, true).unwrap();
    assert_eq!(records.len(), 1);
    let rec = &records[0];
    assert_eq!(rec.id, 7);
    assert_eq!(rec.vector.as_ref().unwrap(), &vector);
    let payload = rec.payload.as_ref().unwrap();
    match payload.get(&"city".to_string()) {
        Some(PayloadValue::Scalar(ScalarValue::Keyword(s))) => assert_eq!(s, "berlin"),
        _ => panic!("city field missing or wrong"),
    }
}

#[test]
fn delete_semantics() {
    let mut c = Collection::new(config(1), 2);
    // deleting a non-existent id is a no-op and not an error
    assert!(c.update(delete(vec![42]), true).is_ok());
    // deleting an existing id removes it from later retrieval
    c.update(upsert(vec![5], vec![vec![3]]), true).unwrap();
    assert_eq!(c.retrieve(&vec![5], true, true).unwrap().len(), 1);
    c.update(delete(vec![5]), true).unwrap();
    assert_eq!(c.retrieve(&vec![5], true, true).unwrap().len(), 0);
}

#[test]
fn clear_payload_twice_is_like_once() {
    let mut c1 = Collection::new(config(1), 1);
    c1.update(upsert(vec![1], vec![vec![1]]), true).unwrap();
    c1.update(set_payload("k", "v", vec![1]), true).unwrap();
    let mut c2 = Collection::new(config(1), 1);
    c2.update(upsert(vec![1], vec![vec![1]]), true).unwrap();
    c2.update(set_payload("k", "v", vec![1]), true).unwrap();

    c1.update(clear_payload(vec![1]), true).unwrap();
    c2.update(clear_payload(vec![1]), true).unwrap();
    c2.update(clear_payload(vec![1]), true).unwrap();

    let p1 = c1.retrieve(&vec![1], false, true).unwrap();
    let p2 = c2.retrieve(&vec![1], false, true).unwrap();
    assert_eq!(p1.len(), 1);
    assert_eq!(p2.len(), 1);
    let f1 = &p1[0].payload.as_ref().unwrap().fields;
    let f2 = &p2[0].payload.as_ref().unwrap().fields;
    assert_eq!(f1.len(), 0);
    assert_eq!(f2.len(), 0);
}

#[test]
fn wait_semantics() {
    let mut c = Collection::new(config(1), 3);
    let r = c.update(upsert(vec![9], vec![vec![2]]), true).unwrap();
    assert_eq!(r.status, UpdateStatus::Completed);
    // with wait, every segment reflects the operation on return
    assert_eq!(c.retrieve(&vec![9], true, false).unwrap().len(), 1);
    let r = c.update(upsert(vec![10], vec![vec![4]]), false).unwrap();
    assert_eq!(r.status, UpdateStatus::Acknowledged);
    // this implementation converges before returning either way
    assert_eq!(c.retrieve(&vec![10], true, false).unwrap().len(), 1);
}

#[test]
fn wrong_dimension_is_rejected_atomically() {
    let mut c = Collection::new(config(2), 2);
    let r = c.update(upsert(vec![1], vec![vec![1, 2, 3]]), true);
    match r {
        Err(StorageError::BadInput { .. }) => {},
        _ => panic!("expected a bad-input error"),
    }
    // nothing was applied
    assert_eq!(c.retrieve(&vec![1], true, true).unwrap().len(), 0);
}

#[test]
fn upsert_keeps_payload_and_replaces_vector() {
    let mut c = Collection::new(config(1), 1);
    c.update(upsert(vec![3], vec![vec![1]]), true).unwrap();
    c.update(set_payload("k", "v", vec![3]), true).unwrap();
    c.update(upsert(vec![3], vec![vec![2]]), true).unwrap();
    let records = c.retrieve(&vec![3], true, true).unwrap();
    assert_eq!(records[0].vector.as_ref().unwrap(), &vec![2]);
    assert_eq!(records[0].payload.as_ref().unwrap().fields.len(), 1);
}

#[test]
fn retrieve_projection_flags() {
    let mut c = Collection::new(config(1), 1);
    c.update(upsert(vec![3], vec![vec![1]]), true).unwrap();
    let records = c.retrieve(&vec![3], false, false).unwrap();
    assert!(records[0].vector.is_none());
    assert!(records[0].payload.is_none());
}

#[test]
fn delete_payload_fields() {
    let mut c = Collection::new(config(1), 1);
    c.update(upsert(vec![3], vec![vec![1]]), true).unwrap();
    c.update(set_payload("a", "1", vec![3]), true).unwrap();
    c.update(set_payload("b", "2", vec![3]), true).unwrap();
    let op = CollectionUpdateOperations::PayloadOperation(PayloadOps::DeletePayload {
        keys: vec!["a".to_string()],
        points: vec![3],
    });
    c.update(op, true).unwrap();
    let records = c.retrieve(&vec![3], false, true).unwrap();
    let fields = &records[0].payload.as_ref().unwrap().fields;
    assert_eq!(fields.len(), 1);
    assert_eq!(fields[0].0, "b");
}

#[test]
fn get_point_endpoint() {
    let mut toc = TableOfContent::new();
    let mut c = Collection::new(config(1), 1);
    c.update(upsert(vec![11], vec![vec![6]]), true).unwrap();
    toc.add_collection("test".to_string(), c);

    let rec = get_point_core(&toc, &"test".to_string(), 11).unwrap();
    assert_eq!(rec.id, 11);
    assert_eq!(rec.vector.as_ref().unwrap(), &vec![6]);

    match get_point_core(&toc, &"test".to_string(), 12) {
        Err(StorageError::NotFound { .. }) => {},
        _ => panic!("expected not-found for a missing point"),
    }
    match get_point_core(&toc, &"other".to_string(), 11) {
        Err(StorageError::NotFound { .. }) => {},
        _ => panic!("expected not-found for a missing collection"),
    }
}

#[test]
fn get_vectors_endpoint() {
    let mut toc = TableOfContent::new();
    let mut c = Collection::new(config(1), 1);
    c.update(upsert(vec![1, 2], vec![vec![1], vec![2]]), true).unwrap();
    toc.add_collection("test".to_string(), c);
    let req = PointRequest { ids: vec![2, 3, 1] };
    let recs = get_vectors_core(&toc, &"test".to_string(), &req).unwrap();
    // id 3 is stored nowhere and is omitted, in request order
    assert_eq!(recs.len(), 2);
    assert_eq!(recs[0].id, 2);
    assert_eq!(recs[1].id, 1);
}

#[test]
fn update_points_endpoint() {
    let mut toc = TableOfContent::new();
    toc.add_collection("test".to_string(), Collection::new(config(1), 2));
    let params = UpdateParam { wait: Some(true) };
    let r = update_points_core(
        &mut toc,
        &"test".to_string(),
        upsert(vec![4], vec![vec![8]]),
        &params,
    )
    .unwrap();
    assert_eq!(r.status, UpdateStatus::Completed);
    let rec = get_point_core(&toc, &"test".to_string(), 4).unwrap();
    assert_eq!(rec.vector.as_ref().unwrap(), &vec![8]);

    // default wait is false
    let params = UpdateParam { wait: None };
    let r = update_points_core(
        &mut toc,
        &"test".to_string(),
        upsert(vec![5], vec![vec![9]]),
        &params,
    )
    .unwrap();
    assert_eq!(r.status, UpdateStatus::Acknowledged);

    match update_points_core(
        &mut toc,
        &"missing".to_string(),
        delete(vec![1]),
        &UpdateParam { wait: None },
    ) {
        Err(StorageError::NotFound { .. }) => {},
        _ => panic!("expected not-found for a missing collection"),
    }
}

#[test]
fn list_collections_names() {
    let mut toc = TableOfContent::new();
    toc.add_collection("alpha".to_string(), Collection::new(config(1), 1));
    toc.add_collection("beta".to_string(), Collection::new(config(1), 1));
    let resp = list_collections(&toc);
    assert_eq!(resp.collections.len(), 2);
    assert_eq!(resp.collections[0].name, "alpha");
    assert_eq!(resp.collections[1].name, "beta");
}
