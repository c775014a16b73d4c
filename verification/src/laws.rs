//! Cross-function laws of the library, proved from the public contracts:
//! filtered search answers are a subset of exact filter enumeration,
//! clearing payloads is idempotent, and deletion removes a point from every
//! later read.

use crate::collection::{retrieve_spec, RecordV};
use crate::filters::Filter;
use crate::index::{Index, PayloadIndex};
use crate::operations::{apply_clear_payload, apply_deletes};
use crate::scoring::ScoredPointOffset;
use crate::segment::{live, Segment};
use crate::types::{PointIdType, PointOffsetType, PointV, ValueV};
use vstd::prelude::*;

verus! {

/// Law: filtered search is deterministic about membership — every offset a
/// search returns under filter `f` is also returned by exact enumeration of
/// `f`'s matches. `r` is any sequence satisfying the search contract and
/// `qp` any sequence satisfying the enumeration contract.
pub proof fn lemma_search_subset_of_query_points(
    s: Segment,
    q: Seq<i32>,
    f: Filter,
    top: int,
    r: Seq<ScoredPointOffset>,
    qp: Seq<PointOffsetType>,
)
    requires
        s.search_post(q, Some(f), top, r),
        forall|off: int| #[trigger] s.pmatches(f, off) ==> qp.contains(off as usize),
        s.entries@.len() <= usize::MAX,
    ensures
        forall|k: int| 0 <= k < r.len() ==> qp.contains((#[trigger] r[k]).idx),
{
    assert forall|k: int| 0 <= k < r.len() implies qp.contains((#[trigger] r[k]).idx) by {
        assert(s.candidate(Some(f), r[k].idx as int));
        assert(s.pmatches(f, r[k].idx as int));
        assert(qp.contains((r[k].idx as int) as usize));
    }
}

/// How clearing payloads acts on each point: ids stay, vectors stay,
/// listed points lose their payload fields and advance their version,
/// unlisted points are untouched.
pub proof fn lemma_apply_clear_pointwise(
    m: Map<PointIdType, PointV>,
    ids: Seq<PointIdType>,
    id: PointIdType,
)
    ensures
        apply_clear_payload(m, ids).contains_key(id) == m.contains_key(id),
        m.contains_key(id) && ids.contains(id) ==> apply_clear_payload(m, ids)[id].payload
            == Map::<Seq<char>, ValueV>::empty() && apply_clear_payload(m, ids)[id].vector
            == m[id].vector,
        m.contains_key(id) && !ids.contains(id) ==> apply_clear_payload(m, ids)[id] == m[id],
    decreases ids.len(),
{
    if ids.len() > 0 {
        lemma_apply_clear_pointwise(m, ids.drop_last(), id);
        let prev = apply_clear_payload(m, ids.drop_last());
        if ids.contains(id) {
            if id != ids.last() {
                let k = choose|k: int| 0 <= k < ids.len() && ids[k] == id;
                assert(ids.drop_last()[k] == id);
                assert(ids.drop_last().contains(id));
            }
        } else {
            assert forall|k: int| 0 <= k < ids.drop_last().len() implies ids.drop_last()[k]
                != id by {
                assert(ids.drop_last()[k] == ids[k]);
                assert(!ids.contains(id));
            }
            assert(!ids.drop_last().contains(id)) by {
                if ids.drop_last().contains(id) {
                    let k = choose|k: int|
                        0 <= k < ids.drop_last().len() && ids.drop_last()[k] == id;
                    assert(ids[k] == id);
                }
            }
        }
    }
}

/// The payload of each point, with vectors and versions forgotten.
pub open spec fn payload_state(m: Map<PointIdType, PointV>) -> Map<
    PointIdType,
    Map<Seq<char>, ValueV>,
> {
    Map::new(|id: PointIdType| m.contains_key(id), |id: PointIdType| m[id].payload)
}

/// Law: applying a clear-payload operation twice yields the same payload
/// state as applying it once. (The per-point version clocks still advance,
/// so only the payload state is compared.)
pub proof fn lemma_clear_payload_idempotent(m: Map<PointIdType, PointV>, ids: Seq<PointIdType>)
    ensures
        payload_state(apply_clear_payload(apply_clear_payload(m, ids), ids)) == payload_state(
            apply_clear_payload(m, ids),
        ),
{
    let m1 = apply_clear_payload(m, ids);
    let m2 = apply_clear_payload(m1, ids);
    assert forall|id: PointIdType| #[trigger]
        m1.contains_key(id) implies m2.contains_key(id) && m2[id].payload == m1[id].payload by {
        lemma_apply_clear_pointwise(m, ids, id);
        lemma_apply_clear_pointwise(m1, ids, id);
    }
    assert forall|id: PointIdType| #[trigger]
        m2.contains_key(id) implies m1.contains_key(id) by {
        lemma_apply_clear_pointwise(m1, ids, id);
    }
    assert(payload_state(m2) =~= payload_state(m1));
}

/// How deletion acts on each point: a listed id is gone, an unlisted one
/// is untouched.
pub proof fn lemma_apply_deletes_pointwise(
    m: Map<PointIdType, PointV>,
    ids: Seq<PointIdType>,
    id: PointIdType,
)
    ensures
        apply_deletes(m, ids).contains_key(id) == (m.contains_key(id) && !ids.contains(id)),
        m.contains_key(id) && !ids.contains(id) ==> apply_deletes(m, ids)[id] == m[id],
    decreases ids.len(),
{
    if ids.len() > 0 {
        lemma_apply_deletes_pointwise(m, ids.drop_last(), id);
        if ids.contains(id) {
            if id != ids.last() {
                let k = choose|k: int| 0 <= k < ids.len() && ids[k] == id;
                assert(ids.drop_last()[k] == id);
                assert(ids.drop_last().contains(id));
            }
        } else {
            assert(!ids.drop_last().contains(id)) by {
                if ids.drop_last().contains(id) {
                    let k = choose|k: int|
                        0 <= k < ids.drop_last().len() && ids.drop_last()[k] == id;
                    assert(ids[k] == id);
                }
            }
        }
    }
}

/// Law (one half of delete semantics): deleting an id that is not stored
/// leaves the points exactly as they were — a no-op, not an error.
pub proof fn lemma_delete_nonexistent_noop(m: Map<PointIdType, PointV>, id: PointIdType)
    requires
        !m.contains_key(id),
    ensures
        apply_deletes(m, seq![id]) == m,
{
    assert(seq![id].len() == 1);
    assert(seq![id].last() == id);
    assert(seq![id].drop_last() =~= Seq::<PointIdType>::empty());
    assert(apply_deletes(m, Seq::<PointIdType>::empty()) == m);
    assert(apply_deletes(m, seq![id]) == apply_deletes(m, seq![id].drop_last()).remove(id));
    assert(apply_deletes(m, seq![id]) == m.remove(id));
    assert(m.remove(id) =~= m);
}

/// Law (second half of delete semantics, first part): after a delete that
/// lists `id`, the id is stored nowhere and a retrieval of it returns no
/// record.
pub proof fn lemma_delete_removes_from_retrieve(
    m: Map<PointIdType, PointV>,
    ids: Seq<PointIdType>,
    id: PointIdType,
    with_vector: bool,
    with_payload: bool,
)
    requires
        ids.contains(id),
    ensures
        !apply_deletes(m, ids).contains_key(id),
        retrieve_spec(apply_deletes(m, ids), seq![id], with_vector, with_payload) == Seq::<
            RecordV,
        >::empty(),
{
    lemma_apply_deletes_pointwise(m, ids, id);
    let m2 = apply_deletes(m, ids);
    assert(seq![id].len() == 1);
    assert(seq![id].last() == id);
    assert(seq![id].drop_last() =~= Seq::<PointIdType>::empty());
    assert(retrieve_spec(m2, Seq::<PointIdType>::empty(), with_vector, with_payload) == Seq::<
        RecordV,
    >::empty());
    assert(retrieve_spec(m2, seq![id], with_vector, with_payload) == retrieve_spec(
        m2,
        seq![id].drop_last(),
        with_vector,
        with_payload,
    ));
}

/// Law (second half of delete semantics, second part): after a point is
/// deleted from a segment, exact filter enumeration never returns its old
/// offset, for any filter it previously matched.
pub proof fn lemma_delete_excludes_from_query_points(
    s_old: Segment,
    s_new: Segment,
    id: PointIdType,
    off: int,
    f: Filter,
    qp: Seq<PointOffsetType>,
)
    requires
        // the transition `delete_point` guarantees
        forall|o: int|
            live(s_new.entries@, o) <==> live(s_old.entries@, o) && (#[trigger] s_old.entries@[
                o
            ]).id != id,
        // the enumeration contract on the new segment
        forall|k: int| 0 <= k < qp.len() ==> s_new.pmatches(f, (#[trigger] qp[k]) as int),
        // the deleted point's old offset
        live(s_old.entries@, off),
        s_old.entries@[off].id == id,
        s_old.entries@.len() <= usize::MAX,
    ensures
        !qp.contains(off as usize),
{
    if qp.contains(off as usize) {
        let k = choose|k: int| 0 <= k < qp.len() && qp[k] == off as usize;
        assert(s_new.pmatches(f, qp[k] as int));
        assert(qp[k] as int == off);
        assert(live(s_new.entries@, off));
    }
}

} // verus!
