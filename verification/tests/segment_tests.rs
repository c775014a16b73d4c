use qdrant::filters::{FieldCondition, Filter, GeoBoundingBox, RangeCondition};
use qdrant::index::{Index, PayloadIndex};
use qdrant::segment::{Distance, Segment, SegmentConfig, SegmentState};
use qdrant::types::{GeoPoint, Payload, PayloadValue, ScalarValue};

fn config(dim: usize) -> SegmentConfig {
    SegmentConfig { vector_size: dim, distance: Distance::Dot, full_scan_threshold: 16 }
}

fn keyword_condition(key: &str, value: &str) -> FieldCondition {
    FieldCondition {
        key: key.to_string(),
        match_value: Some(ScalarValue::Keyword(value.to_string())),
        range: None,
        geo_bounding_box: None,
    }
}

fn must_filter(cond: FieldCondition) -> Filter {
    Filter { must: vec![cond], should: vec![], must_not: vec![] }
}

fn payload_with(key: &str, value: &str) -> Payload {
    let mut p = Payload::new();
    p.set(key.to_string(), PayloadValue::Scalar(ScalarValue::Keyword(value.to_string())));
    p
}

#[test]
fn dot_product_exact_value() {
    let a: Vec<i32> = vec![2, 3];
    let b: Vec<i32> = vec![4, 5];
    assert_eq!(qdrant::scoring::dot_product(&a, &b), 23i128);
}

#[test]
fn score_ordering_with_ties() {
    let mut seg = Segment::new(config(2));
    seg.upsert_point(1, vec![3, 0]);
    seg.upsert_point(2, vec![1, 0]);
    seg.upsert_point(3, vec![3, 0]);
    let results = seg.search(&vec![1, 0], None, 3, None).unwrap();
    assert_eq!(results.len(), 3);
    for w in results.windows(2) {
        assert!(w[0].score >= w[1].score);
        if w[0].score == w[1].score {
            assert!(w[0].idx < w[1].idx);
        }
    }
    // ids 1 and 3 score 3 each; offsets 0 and 2; id 2 scores 1
    assert_eq!(results[0].idx, 0);
    assert_eq!(results[0].score, 3);
    assert_eq!(results[1].idx, 2);
    assert_eq!(results[1].score, 3);
    assert_eq!(results[2].idx, 1);
    assert_eq!(results[2].score, 1);
}

#[test]
fn search_truncates_to_top() {
    let mut seg = Segment::new(config(1));
    for id in 0..5u64 {
        seg.upsert_point(id, vec![id as i32]);
    }
    let results = seg.search(&vec![1], None, 2, None).unwrap();
    assert_eq!(results.len(), 2);
    assert_eq!(results[0].score, 4);
    assert_eq!(results[1].score, 3);
}

#[test]
fn filtered_search_subset_of_query_points() {
    let mut seg = Segment::new(config(2));
    seg.upsert_point(1, vec![5, 0]);
    seg.upsert_point(2, vec![4, 0]);
    seg.upsert_point(3, vec![3, 0]);
    let mut p = payload_with("city", "berlin");
    seg.set_payload_point(1, &p);
    p = payload_with("city", "london");
    seg.set_payload_point(2, &p);
    p = payload_with("city", "berlin");
    seg.set_payload_point(3, &p);
    let f = must_filter(keyword_condition("city", "berlin"));
    let matches = PayloadIndex::query_points(&seg, &f);
    let results = seg.search(&vec![1, 0], Some(&f), 10, None).unwrap();
    assert_eq!(results.len(), 2);
    for r in &results {
        assert!(matches.contains(&r.idx));
    }
}

#[test]
fn cardinality_bounds() {
    let mut seg = Segment::new(config(1));
    seg.upsert_point(1, vec![1]);
    seg.upsert_point(2, vec![2]);
    seg.upsert_point(3, vec![3]);
    let p = payload_with("kind", "a");
    seg.set_payload_point(1, &p);
    seg.set_payload_point(2, &p);
    let f = must_filter(keyword_condition("kind", "a"));
    let (min_c, max_c) = PayloadIndex::estimate_cardinality(&seg, &f);
    let exact = PayloadIndex::query_points(&seg, &f).len();
    assert!(min_c <= exact);
    assert!(exact <= max_c);
    assert!(max_c <= 3);
    assert_eq!(exact, 2);
}

#[test]
fn malformed_filter_is_rejected() {
    let mut seg = Segment::new(config(1));
    seg.upsert_point(1, vec![1]);
    // a condition that constrains nothing is malformed
    let empty_cond = FieldCondition {
        key: "x".to_string(),
        match_value: None,
        range: None,
        geo_bounding_box: None,
    };
    let f = must_filter(empty_cond);
    assert!(seg.search(&vec![1], Some(&f), 1, None).is_err());
}

#[test]
fn range_and_geo_and_list_conditions() {
    let mut seg = Segment::new(config(1));
    seg.upsert_point(1, vec![1]);
    let mut p = Payload::new();
    p.set("age".to_string(), PayloadValue::Scalar(ScalarValue::Int(30)));
    p.set(
        "tags".to_string(),
        PayloadValue::List(vec![
            ScalarValue::Keyword("red".to_string()),
            ScalarValue::Keyword("blue".to_string()),
        ]),
    );
    p.set("pos".to_string(), PayloadValue::Geo(GeoPoint { lon: 13_400_000, lat: 52_520_000 }));
    seg.set_payload_point(1, &p);

    let range_cond = FieldCondition {
        key: "age".to_string(),
        match_value: None,
        range: Some(RangeCondition { gt: Some(18), gte: None, lt: Some(65), lte: None }),
        geo_bounding_box: None,
    };
    assert_eq!(PayloadIndex::query_points(&seg, &must_filter(range_cond)), vec![0usize]);

    let list_cond = keyword_condition("tags", "blue");
    assert_eq!(PayloadIndex::query_points(&seg, &must_filter(list_cond)), vec![0usize]);

    let geo_cond = FieldCondition {
        key: "pos".to_string(),
        match_value: None,
        range: None,
        geo_bounding_box: Some(GeoBoundingBox {
            top_left: GeoPoint { lon: 13_000_000, lat: 53_000_000 },
            bottom_right: GeoPoint { lon: 14_000_000, lat: 52_000_000 },
        }),
    };
    assert_eq!(PayloadIndex::query_points(&seg, &must_filter(geo_cond)), vec![0usize]);

    let miss = keyword_condition("tags", "green");
    assert_eq!(PayloadIndex::query_points(&seg, &must_filter(miss)), Vec::<usize>::new());
}

#[test]
fn must_not_and_should_combinators() {
    let mut seg = Segment::new(config(1));
    seg.upsert_point(1, vec![1]);
    seg.upsert_point(2, vec![1]);
    seg.set_payload_point(1, &payload_with("color", "red"));
    seg.set_payload_point(2, &payload_with("color", "blue"));

    let f = Filter {
        must: vec![],
        should: vec![],
        must_not: vec![keyword_condition("color", "red")],
    };
    assert_eq!(PayloadIndex::query_points(&seg, &f), vec![1usize]);

    let f = Filter {
        must: vec![],
        should: vec![
            keyword_condition("color", "red"),
            keyword_condition("color", "blue"),
        ],
        must_not: vec![],
    };
    assert_eq!(PayloadIndex::query_points(&seg, &f), vec![0usize, 1usize]);
}

#[test]
fn delete_excludes_from_query_points() {
    let mut seg = Segment::new(config(1));
    seg.upsert_point(1, vec![1]);
    seg.upsert_point(2, vec![1]);
    let p = payload_with("kind", "a");
    seg.set_payload_point(1, &p);
    seg.set_payload_point(2, &p);
    let f = must_filter(keyword_condition("kind", "a"));
    assert_eq!(PayloadIndex::query_points(&seg, &f), vec![0usize, 1usize]);
    seg.delete_point(1);
    assert_eq!(PayloadIndex::query_points(&seg, &f), vec![1usize]);
}

#[test]
fn build_index_keeps_contents() {
    let mut seg = Segment::new(config(1));
    seg.upsert_point(1, vec![7]);
    assert!(Index::build_index(&mut seg).is_ok());
    let results = seg.search(&vec![1], None, 1, None).unwrap();
    assert_eq!(results.len(), 1);
    assert_eq!(results[0].score, 7);
}

#[test]
fn closed_segment_state() {
    let mut seg = Segment::new(config(1));
    assert_eq!(seg.state, SegmentState::Active);
    seg.close();
    assert_eq!(seg.state, SegmentState::Closed);
}

#[test]
fn exact_search_param_matches_index_search() {
    let mut seg = Segment::new(config(1));
    for id in 0..20u64 {
        seg.upsert_point(id, vec![id as i32]);
        seg.set_payload_point(id, &payload_with("kind", "a"));
    }
    let f = must_filter(keyword_condition("kind", "a"));
    let params = qdrant::index::SearchParams { hnsw_ef: Some(8), exact: Some(true) };
    let exact = seg.search(&vec![1], Some(&f), 3, Some(&params)).unwrap();
    let plain = seg.search(&vec![1], Some(&f), 3, None).unwrap();
    assert_eq!(exact, plain);
}
