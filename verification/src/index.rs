//! The dual-index contract every segment satisfies: a vector index that
//! answers filtered top-k similarity queries, and a payload index that
//! estimates and enumerates the points matching a filter.

use crate::filters::{filter_wf, Filter};
use crate::scoring::{all_before, appears, sorted_by_score, ScoredPointOffset};
use crate::types::{OperationResult, PointOffsetType, VectorElementType};
use vstd::prelude::*;

verus! {

/// The filter argument of a search, as a spec value.
pub open spec fn filter_of(f: Option<&Filter>) -> Option<Filter> {
    match f {
        Some(ff) => Some(*ff),
        None => None,
    }
}

/// Recognized options of one search call.
#[derive(Clone, Copy)]
pub struct SearchParams {
    /// Search breadth of a graph-based index: trades time for recall.
    /// A hint only; a flat index ignores it.
    pub hnsw_ef: Option<usize>,
    /// Force exact search, bypassing any approximate structure.
    pub exact: Option<bool>,
}

/// Contract of a vector index: filtered top-k search and an explicit
/// rebuild. `search` does not mutate and is safe under concurrent reads;
/// `build_index` is exclusive and must be serialized by the caller.
pub trait Index {
    /// Internal invariant of the index.
    spec fn inv(&self) -> bool;

    /// Dimension of the vectors this index searches.
    spec fn dim(&self) -> nat;

    /// Whether `off` is a live point that satisfies `f` (or any live point
    /// when `f` is absent).
    spec fn candidate(&self, f: Option<Filter>, off: int) -> bool;

    /// Score of the point at `off` against the query `q`.
    spec fn score_of(&self, q: Seq<i32>, off: int) -> int;

    /// The scored result entry for the point at `off`.
    open spec fn scored_at(&self, q: Seq<i32>, off: int) -> ScoredPointOffset {
        ScoredPointOffset { idx: off as usize, score: self.score_of(q, off) as i128 }
    }

    /// Exact characterization of a top-k answer: sorted by descending
    /// score with ties broken by ascending offset; only true candidates
    /// with their true scores; nothing missing while there is room; and
    /// every left-out candidate is beaten by everything returned.
    open spec fn search_post(
        &self,
        q: Seq<i32>,
        f: Option<Filter>,
        top: int,
        r: Seq<ScoredPointOffset>,
    ) -> bool {
        &&& sorted_by_score(r)
        &&& r.len() <= top
        &&& (forall|k: int|
            0 <= k < r.len() ==> self.candidate(f, (#[trigger] r[k]).idx as int) && r[k]
                == self.scored_at(q, r[k].idx as int))
        &&& (r.len() < top ==> (forall|off: int|
            #[trigger] self.candidate(f, off) ==> appears(r, off)))
        &&& (forall|off: int|
            #[trigger] self.candidate(f, off) && !appears(r, off) ==> all_before(
                r,
                self.scored_at(q, off),
            ))
    }

    /// Returns the `top` best-scoring live points that satisfy the filter.
    fn search(
        &self,
        vector: &Vec<VectorElementType>,
        filter: Option<&Filter>,
        top: usize,
        params: Option<&SearchParams>,
    ) -> (r: Vec<ScoredPointOffset>)
        requires
            self.inv(),
            vector@.len() == self.dim(),
            filter matches Some(f) ==> filter_wf(*f),
        ensures
            self.search_post(vector@, filter_of(filter), top as int, r@),
    ;

    /// Forces a full rebuild of the internal structures. On success the
    /// searchable contents are unchanged.
    fn build_index(&mut self) -> (r: OperationResult<()>)
        requires
            old(self).inv(),
        ensures
            final (self).inv(),
            r is Ok ==> final (self).dim() == old(self).dim() && (forall|f: Option<Filter>, off:
                int|
                (#[trigger] final (self).candidate(f, off)) == old(self).candidate(f, off)) && (
            forall|q: Seq<i32>, off: int|
                (#[trigger] final (self).score_of(q, off)) == old(self).score_of(q, off)),
    ;
}

/// Contract of a payload index: cardinality estimation (a performance
/// hint, bounded by the true count) and exact enumeration of the points
/// that match a filter.
pub trait PayloadIndex {
    /// Internal invariant of the index.
    spec fn inv(&self) -> bool;

    /// Number of live points covered by this index.
    spec fn total_points(&self) -> nat;

    /// Whether the live point at `off` satisfies `f`.
    spec fn pmatches(&self, f: Filter, off: int) -> bool;

    /// Number of live points satisfying `f`.
    spec fn match_count(&self, f: Filter) -> nat;

    /// Returns a lower and an upper bound on how many points satisfy the
    /// filter, without materializing them.
    fn estimate_cardinality(&self, query: &Filter) -> (r: (usize, usize))
        requires
            self.inv(),
            filter_wf(*query),
        ensures
            r.0 <= self.match_count(*query),
            self.match_count(*query) <= r.1,
            r.1 <= self.total_points(),
    ;

    /// Returns exactly the offsets of the points satisfying the filter, in
    /// ascending order, without duplicates.
    fn query_points(&self, query: &Filter) -> (r: Vec<PointOffsetType>)
        requires
            self.inv(),
            filter_wf(*query),
        ensures
            forall|k1: int, k2: int| 0 <= k1 < k2 < r@.len() ==> r@[k1] < r@[k2],
            forall|k: int|
                0 <= k < r@.len() ==> self.pmatches(*query, (#[trigger] r@[k]) as int),
            forall|off: int| #[trigger] self.pmatches(*query, off) ==> r@.contains(off as usize),
            r@.len() == self.match_count(*query),
    ;
}

} // verus!
