use qdrant::merge::{merge_results, ScoredPoint};

fn sp(id: u64, score: i128) -> ScoredPoint {
    ScoredPoint { id, score }
}

#[test]
fn merge_deduplicates_by_id_keeping_highest_score() {
    // answers for the same ids gathered from several segments
    let candidates = vec![sp(1, 10), sp(2, 7), sp(1, 12), sp(3, 9), sp(2, 5)];
    let merged = merge_results(&candidates, 10);
    assert_eq!(merged, vec![sp(1, 12), sp(3, 9), sp(2, 7)]);
}

#[test]
fn merge_truncates_to_top() {
    let candidates = vec![sp(1, 1), sp(2, 2), sp(3, 3), sp(4, 4)];
    let merged = merge_results(&candidates, 2);
    assert_eq!(merged, vec![sp(4, 4), sp(3, 3)]);
}

#[test]
fn merge_breaks_score_ties_by_ascending_id() {
    let candidates = vec![sp(9, 5), sp(2, 5), sp(4, 5)];
    let merged = merge_results(&candidates, 3);
    assert_eq!(merged, vec![sp(2, 5), sp(4, 5), sp(9, 5)]);
}

#[test]
fn merge_of_nothing_is_empty() {
    let merged = merge_results(&Vec::new(), 3);
    assert!(merged.is_empty());
}
