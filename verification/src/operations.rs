//! The closed set of collection-level update operations, their validity,
//! and their mathematical effect on the stored points.

use crate::types::{
    keys_unique, kv_view, Payload, PayloadValue, PointIdType, PointV, ValueV, VectorElementType,
};
use vstd::prelude::*;

verus! {

/// Point-level mutation intents.
pub enum PointOps {
    /// Insert or update points: `ids[i]` receives vector `vectors[i]`.
    /// A new point starts with an empty payload; an existing point keeps
    /// its payload and has its vector replaced.
    UpsertPoints { ids: Vec<PointIdType>, vectors: Vec<Vec<VectorElementType>> },
    /// Delete points by id; an absent id is a no-op, not an error.
    DeletePoints { ids: Vec<PointIdType> },
}

/// Payload-level mutation intents.
pub enum PayloadOps {
    /// Set the given fields on each listed point, overriding fields that
    /// already exist and keeping the others.
    SetPayload { payload: Payload, points: Vec<PointIdType> },
    /// Delete the given fields from each listed point if they are assigned.
    DeletePayload { keys: Vec<String>, points: Vec<PointIdType> },
    /// Drop all payload fields of each listed point.
    ClearPayload { points: Vec<PointIdType> },
}

/// One collection-level update: a point operation or a payload operation.
/// Internally the sum is tagged; at the wire boundary the two kinds are
/// told apart by the shape of the fields present.
pub enum CollectionUpdateOperations {
    PointOperation(PointOps),
    PayloadOperation(PayloadOps),
}

/// Advances a per-point version clock; it saturates at the top instead of
/// wrapping.
pub open spec fn bump(v: u64) -> u64 {
    if v == u64::MAX {
        v
    } else {
        (v + 1) as u64
    }
}

/// Effect of upserting one point: a new point starts with an empty payload
/// at version 1; an existing point keeps its payload, gets the new vector,
/// and its version advances.
pub open spec fn upsert_one(
    m: Map<PointIdType, PointV>,
    id: PointIdType,
    vector: Seq<i32>,
) -> Map<PointIdType, PointV> {
    if m.contains_key(id) {
        m.insert(id, PointV { vector, payload: m[id].payload, version: bump(m[id].version) })
    } else {
        m.insert(id, PointV { vector, payload: Map::empty(), version: 1 })
    }
}

pub open spec fn apply_upserts(
    m: Map<PointIdType, PointV>,
    ids: Seq<PointIdType>,
    vectors: Seq<Seq<i32>>,
) -> Map<PointIdType, PointV>
    decreases ids.len(),
{
    if ids.len() == 0 {
        m
    } else {
        upsert_one(
            apply_upserts(m, ids.drop_last(), vectors.drop_last()),
            ids.last(),
            vectors.last(),
        )
    }
}

pub open spec fn apply_deletes(
    m: Map<PointIdType, PointV>,
    ids: Seq<PointIdType>,
) -> Map<PointIdType, PointV>
    decreases ids.len(),
{
    if ids.len() == 0 {
        m
    } else {
        apply_deletes(m, ids.drop_last()).remove(ids.last())
    }
}

/// Effect of setting payload fields on one point; an absent id is a no-op.
pub open spec fn set_payload_one(
    m: Map<PointIdType, PointV>,
    id: PointIdType,
    fields: Map<Seq<char>, ValueV>,
) -> Map<PointIdType, PointV> {
    if m.contains_key(id) {
        m.insert(
            id,
            PointV {
                vector: m[id].vector,
                payload: m[id].payload.union_prefer_right(fields),
                version: bump(m[id].version),
            },
        )
    } else {
        m
    }
}

pub open spec fn apply_set_payload(
    m: Map<PointIdType, PointV>,
    ids: Seq<PointIdType>,
    fields: Map<Seq<char>, ValueV>,
) -> Map<PointIdType, PointV>
    decreases ids.len(),
{
    if ids.len() == 0 {
        m
    } else {
        set_payload_one(apply_set_payload(m, ids.drop_last(), fields), ids.last(), fields)
    }
}

/// Effect of deleting payload fields from one point; an absent id or an
/// unassigned field is a no-op.
pub open spec fn delete_payload_one(
    m: Map<PointIdType, PointV>,
    id: PointIdType,
    keys: Set<Seq<char>>,
) -> Map<PointIdType, PointV> {
    if m.contains_key(id) {
        m.insert(
            id,
            PointV {
                vector: m[id].vector,
                payload: m[id].payload.remove_keys(keys),
                version: bump(m[id].version),
            },
        )
    } else {
        m
    }
}

pub open spec fn apply_delete_payload(
    m: Map<PointIdType, PointV>,
    ids: Seq<PointIdType>,
    keys: Set<Seq<char>>,
) -> Map<PointIdType, PointV>
    decreases ids.len(),
{
    if ids.len() == 0 {
        m
    } else {
        delete_payload_one(apply_delete_payload(m, ids.drop_last(), keys), ids.last(), keys)
    }
}

/// Effect of clearing the payload of one point; an absent id is a no-op.
pub open spec fn clear_payload_one(
    m: Map<PointIdType, PointV>,
    id: PointIdType,
) -> Map<PointIdType, PointV> {
    if m.contains_key(id) {
        m.insert(
            id,
            PointV {
                vector: m[id].vector,
                payload: Map::empty(),
                version: bump(m[id].version),
            },
        )
    } else {
        m
    }
}

pub open spec fn apply_clear_payload(
    m: Map<PointIdType, PointV>,
    ids: Seq<PointIdType>,
) -> Map<PointIdType, PointV>
    decreases ids.len(),
{
    if ids.len() == 0 {
        m
    } else {
        clear_payload_one(apply_clear_payload(m, ids.drop_last()), ids.last())
    }
}

/// Views of the vectors carried by an upsert.
pub open spec fn vector_views(vectors: Seq<Vec<VectorElementType>>) -> Seq<Seq<i32>> {
    vectors.map_values(|v: Vec<VectorElementType>| v@)
}

/// Views of a list of payload keys, as a set.
pub open spec fn key_views(keys: Seq<String>) -> Set<Seq<char>>
    decreases keys.len(),
{
    if keys.len() == 0 {
        Set::empty()
    } else {
        key_views(keys.drop_last()).insert(keys.last()@)
    }
}

/// The full effect of one update operation on the stored points.
pub open spec fn apply_op(
    m: Map<PointIdType, PointV>,
    op: CollectionUpdateOperations,
) -> Map<PointIdType, PointV> {
    match op {
        CollectionUpdateOperations::PointOperation(p) => match p {
            PointOps::UpsertPoints { ids, vectors } => apply_upserts(
                m,
                ids@,
                vector_views(vectors@),
            ),
            PointOps::DeletePoints { ids } => apply_deletes(m, ids@),
        },
        CollectionUpdateOperations::PayloadOperation(p) => match p {
            PayloadOps::SetPayload { payload, points } => apply_set_payload(
                m,
                points@,
                kv_view(payload.fields@),
            ),
            PayloadOps::DeletePayload { keys, points } => apply_delete_payload(
                m,
                points@,
                key_views(keys@),
            ),
            PayloadOps::ClearPayload { points } => apply_clear_payload(m, points@),
        },
    }
}

/// An operation is valid for a given vector dimension when an upsert pairs
/// every id with a vector of that dimension, and a payload to set has
/// unique field names. Every other operation is always valid.
/// Validity of one upsert: ids and vectors pair up and every vector has
/// the collection's dimension.
pub open spec fn upsert_valid(
    ids: Vec<PointIdType>,
    vectors: Vec<Vec<VectorElementType>>,
    dim: nat,
) -> bool {
    &&& ids@.len() == vectors@.len()
    &&& forall|i: int| 0 <= i < vectors@.len() ==> (#[trigger] vectors@[i])@.len() == dim
}

pub open spec fn op_valid(op: CollectionUpdateOperations, dim: nat) -> bool {
    match op {
        CollectionUpdateOperations::PointOperation(p) => match p {
            PointOps::UpsertPoints { ids, vectors } => upsert_valid(ids, vectors, dim),
            PointOps::DeletePoints { .. } => true,
        },
        CollectionUpdateOperations::PayloadOperation(p) => match p {
            PayloadOps::SetPayload { payload, .. } => keys_unique(payload.fields@),
            PayloadOps::DeletePayload { .. } => true,
            PayloadOps::ClearPayload { .. } => true,
        },
    }
}

/// Checks that payload field names are unique.
pub fn check_keys_unique(fields: &Vec<(String, PayloadValue)>) -> (r: bool)
    ensures
        r == keys_unique(fields@),
{
    let mut i: usize = 0;
    while i < fields.len()
        invariant
            i <= fields@.len(),
            forall|a: int, b: int| 0 <= a < b < i as int ==> fields@[a].0@ != fields@[b].0@,
        decreases fields@.len() - i as int,
    {
        let mut j: usize = 0;
        while j < i
            invariant
                j <= i,
                i < fields@.len(),
                forall|a: int, b: int| 0 <= a < b < i as int ==> fields@[a].0@ != fields@[b].0@,
                forall|a: int| 0 <= a < j as int ==> fields@[a].0@ != fields@[i as int].0@,
            decreases i - j,
        {
            if fields[j].0 == fields[i].0 {
                proof {
                    assert(fields@[j as int].0@ == fields@[i as int].0@);
                    assert(!keys_unique(fields@));
                }
                return false;
            }
            j = j + 1;
        }
        i = i + 1;
    }
    true
}

/// Checks an operation against the collection's vector dimension; `update`
/// rejects an operation for which this returns false, before any mutation.
pub fn validate_operation(op: &CollectionUpdateOperations, dim: usize) -> (r: bool)
    ensures
        r == op_valid(*op, dim as nat),
{
    match op {
        CollectionUpdateOperations::PointOperation(p) => match p {
            PointOps::UpsertPoints { ids, vectors } => {
                proof {
                    assert(op_valid(*op, dim as nat) == upsert_valid(*ids, *vectors, dim as nat));
                }
                if ids.len() != vectors.len() {
                    return false;
                }
                let mut i: usize = 0;
                while i < vectors.len()
                    invariant
                        op_valid(*op, dim as nat) == upsert_valid(*ids, *vectors, dim as nat),
                        i <= vectors@.len(),
                        forall|k: int|
                            0 <= k < i as int ==> (#[trigger] vectors@[k])@.len() == dim as nat,
                    decreases vectors@.len() - i as int,
                {
                    if vectors[i].len() != dim {
                        proof {
                            assert((vectors@[i as int])@.len() != dim as nat);
                            assert(!upsert_valid(*ids, *vectors, dim as nat));
                        }
                        return false;
                    }
                    i = i + 1;
                }
                true
            },
            PointOps::DeletePoints { .. } => true,
        },
        CollectionUpdateOperations::PayloadOperation(p) => match p {
            PayloadOps::SetPayload { payload, .. } => check_keys_unique(&payload.fields),
            PayloadOps::DeletePayload { .. } => true,
            PayloadOps::ClearPayload { .. } => true,
        },
    }
}

} // verus!
