//! The collection layer: an ordered set of segments, each a full replica,
//! with write-through replication of updates and point retrieval as one
//! logical operation.

use crate::operations::{apply_op, op_valid, validate_operation, CollectionUpdateOperations};
use crate::segment::{
    copy_vector, lemma_entries_view_at, lemma_entries_view_contains, Segment, SegmentConfig,
};
use crate::types::{
    clone_payload, OperationResult, Payload, PointIdType, PointV, StorageError,
    VectorElementType, ValueV,
};
use vstd::prelude::*;

verus! {

/// Whether an update had been durably applied everywhere when the call
/// returned.
#[derive(Clone, Copy, PartialEq, Eq, Structural, Debug)]
pub enum UpdateStatus {
    /// The caller asked to wait: every segment had applied the operation
    /// when the call returned.
    Completed,
    /// The caller did not ask to wait: the operation was accepted, with
    /// eventual application guaranteed. (This synchronous implementation
    /// has in fact applied it everywhere by return time as well.)
    Acknowledged,
}

/// Outcome of an accepted update.
#[derive(Clone, Copy, PartialEq, Eq, Structural, Debug)]
pub struct UpdateResult {
    pub status: UpdateStatus,
}

/// One retrieved point; the vector and payload are present according to
/// the projection flags of the request.
pub struct Record {
    pub id: PointIdType,
    pub vector: Option<Vec<VectorElementType>>,
    pub payload: Option<Payload>,
}

/// Mathematical shape of a record.
pub struct RecordV {
    pub id: PointIdType,
    pub vector: Option<Seq<i32>>,
    pub payload: Option<Map<Seq<char>, ValueV>>,
}

impl View for Record {
    type V = RecordV;

    open spec fn view(&self) -> RecordV {
        RecordV {
            id: self.id,
            vector: match self.vector {
                Some(v) => Some(v@),
                None => None,
            },
            payload: match self.payload {
                Some(p) => Some(p@),
                None => None,
            },
        }
    }
}

/// Views of a sequence of records, element by element.
pub open spec fn records_view(s: Seq<Record>) -> Seq<RecordV> {
    s.map_values(|r: Record| r@)
}

/// The record projected from one stored point.
pub open spec fn record_of(id: PointIdType, p: PointV, with_vector: bool, with_payload: bool) -> RecordV {
    RecordV {
        id,
        vector: if with_vector {
            Some(p.vector)
        } else {
            None
        },
        payload: if with_payload {
            Some(p.payload)
        } else {
            None
        },
    }
}

/// What retrieval returns: one record per requested id that exists, in
/// request order; an id stored nowhere is omitted, not an error.
pub open spec fn retrieve_spec(
    m: Map<PointIdType, PointV>,
    ids: Seq<PointIdType>,
    with_vector: bool,
    with_payload: bool,
) -> Seq<RecordV>
    decreases ids.len(),
{
    if ids.len() == 0 {
        Seq::empty()
    } else {
        let rest = retrieve_spec(m, ids.drop_last(), with_vector, with_payload);
        if m.contains_key(ids.last()) {
            rest.push(record_of(ids.last(), m[ids.last()], with_vector, with_payload))
        } else {
            rest
        }
    }
}

/// Looks one point up in one segment, with the requested projection.
fn segment_get_point(seg: &Segment, id: PointIdType, with_vector: bool, with_payload: bool) -> (r:
    Option<Record>)
    requires
        seg.wf(),
    ensures
        match r {
            Some(rec) => seg.points().contains_key(id) && rec@ == record_of(
                id,
                seg.points()[id],
                with_vector,
                with_payload,
            ),
            None => !seg.points().contains_key(id),
        },
{
    match seg.find_offset(id) {
        Some(off) => {
            proof {
                lemma_entries_view_at(seg.entries@, off as int);
            }
            let e = &seg.entries[off];
            let vector = if with_vector {
                Some(copy_vector(&e.vector))
            } else {
                None
            };
            let payload = if with_payload {
                Some(clone_payload(&e.payload))
            } else {
                None
            };
            Some(Record { id, vector, payload })
        },
        None => {
            proof {
                lemma_entries_view_contains(seg.entries@, id);
            }
            None
        },
    }
}

/// The logical dataset: one or more segments, each a redundant full copy
/// of the points, plus the shared configuration.
pub struct Collection {
    pub config: SegmentConfig,
    pub segments: Vec<Segment>,
}

impl Collection {
    /// Internal invariant: at least one segment; every segment is well
    /// formed, usable, configured like the collection, and — since every
    /// update is replicated to all of them — holds the same points.
    pub open spec fn wf(&self) -> bool {
        &&& self.segments@.len() >= 1
        &&& forall|i: int|
            0 <= i < self.segments@.len() ==> (#[trigger] self.segments@[i]).wf()
                && self.segments@[i].usable() && self.segments@[i].config == self.config
        &&& forall|i: int|
            0 <= i < self.segments@.len() ==> (#[trigger] self.segments@[i]).points()
                == self.segments@[0].points()
    }

    /// The points of the collection; every segment holds the same ones.
    pub open spec fn points(&self) -> Map<PointIdType, PointV> {
        self.segments@[0].points()
    }

    /// Creates a collection of `segment_count` empty replicas.
    pub fn new(config: SegmentConfig, segment_count: usize) -> (r: Collection)
        requires
            segment_count >= 1,
        ensures
            r.wf(),
            r.config == config,
            r.points() == Map::<PointIdType, PointV>::empty(),
    {
        let mut segments: Vec<Segment> = Vec::new();
        let mut i: usize = 0;
        while i < segment_count
            invariant
                i <= segment_count,
                segments@.len() == i as int,
                forall|k: int|
                    0 <= k < i as int ==> (#[trigger] segments@[k]).wf() && segments@[k].usable()
                        && segments@[k].config == config && segments@[k].points() == Map::<
                        PointIdType,
                        PointV,
                    >::empty(),
            decreases segment_count - i,
        {
            segments.push(Segment::new(config));
            i = i + 1;
        }
        Collection { config, segments }
    }

    /// Applies one update to every owned segment (write-through
    /// replication for durability, not partitioning). An operation the
    /// configuration rejects fails with a storage error before any segment
    /// changes; an accepted operation has been applied by every segment
    /// when the call returns, whatever `wait` says — `wait` only selects
    /// how much the returned status promises.
    pub fn update(&mut self, operation: CollectionUpdateOperations, wait: bool) -> (r: Result<
        UpdateResult,
        StorageError,
    >)
        requires
            old(self).wf(),
        ensures
            final (self).wf(),
            final (self).config == old(self).config,
            r is Ok <==> op_valid(operation, old(self).config.vector_size as nat),
            r matches Ok(u) ==> {
                &&& final (self).points() == apply_op(old(self).points(), operation)
                &&& final (self).segments@.len() == old(self).segments@.len()
                &&& (forall|i: int|
                    0 <= i < final (self).segments@.len()
                        ==> (#[trigger] final (self).segments@[i]).points() == apply_op(
                        old(self).points(),
                        operation,
                    ))
                &&& u.status == (if wait {
                    UpdateStatus::Completed
                } else {
                    UpdateStatus::Acknowledged
                })
            },
            r is Err ==> *final (self) == *old(self),
            r matches Err(e) ==> e is BadInput,
    {
        if !validate_operation(&operation, self.config.vector_size) {
            return Err(
                StorageError::BadInput {
                    description: "operation does not fit the collection configuration".to_string(),
                },
            );
        }
        let ghost m0 = self.points();
        let n = self.segments.len();
        let mut i: usize = 0;
        while i < n
            invariant
                n == self.segments@.len(),
                n >= 1,
                i <= n,
                self.config == old(self).config,
                op_valid(operation, self.config.vector_size as nat),
                forall|k: int|
                    0 <= k < n as int ==> (#[trigger] self.segments@[k]).wf()
                        && self.segments@[k].usable() && self.segments@[k].config == self.config,
                forall|k: int|
                    0 <= k < i as int ==> (#[trigger] self.segments@[k]).points() == apply_op(
                        m0,
                        operation,
                    ),
                forall|k: int|
                    i as int <= k < n as int ==> (#[trigger] self.segments@[k]).points() == m0,
            decreases n - i,
        {
            let ghost segs0 = self.segments@;
            let mut seg = self.segments.remove(i);
            seg.apply_operation(&operation);
            self.segments.insert(i, seg);
            proof {
                assert(self.segments@ =~= segs0.update(i as int, self.segments@[i as int]));
            }
            i = i + 1;
        }
        Ok(
            UpdateResult {
                status: if wait {
                    UpdateStatus::Completed
                } else {
                    UpdateStatus::Acknowledged
                },
            },
        )
    }

    /// Retrieves the requested points with the requested projection,
    /// querying segments until one holds the id; ids stored nowhere are
    /// omitted. Never fails: absence is not an error at this layer.
    pub fn retrieve(&self, ids: &Vec<PointIdType>, with_vector: bool, with_payload: bool) -> (r:
        OperationResult<Vec<Record>>)
        requires
            self.wf(),
        ensures
            r is Ok,
            r matches Ok(recs) ==> records_view(recs@) == retrieve_spec(
                self.points(),
                ids@,
                with_vector,
                with_payload,
            ),
    {
        let mut out: Vec<Record> = Vec::new();
        let mut i: usize = 0;
        proof {
            assert(ids@.take(0) =~= Seq::<PointIdType>::empty());
            assert(records_view(out@) =~= Seq::<RecordV>::empty());
        }
        while i < ids.len()
            invariant
                self.wf(),
                i <= ids@.len(),
                records_view(out@) == retrieve_spec(
                    self.points(),
                    ids@.take(i as int),
                    with_vector,
                    with_payload,
                ),
            decreases ids@.len() - i as int,
        {
            let ghost o0 = out@;
            match self.get_record(ids[i], with_vector, with_payload) {
                Some(rec) => {
                    let ghost rv = rec@;
                    out.push(rec);
                    proof {
                        assert(records_view(out@) =~= records_view(o0).push(rv));
                    }
                },
                None => {},
            }
            proof {
                assert(ids@.take(i as int + 1).drop_last() =~= ids@.take(i as int));
                assert(ids@.take(i as int + 1).last() == ids@[i as int]);
            }
            i = i + 1;
        }
        proof {
            assert(ids@.take(ids@.len() as int) =~= ids@);
        }
        Ok(out)
    }

    /// Looks one id up, querying segments in order until one holds it.
    /// Ids are unique across the collection, so at most one record exists.
    pub fn get_record(&self, id: PointIdType, with_vector: bool, with_payload: bool) -> (r: Option<
        Record,
    >)
        requires
            self.wf(),
        ensures
            match r {
                Some(rec) => self.points().contains_key(id) && rec@ == record_of(
                    id,
                    self.points()[id],
                    with_vector,
                    with_payload,
                ),
                None => !self.points().contains_key(id),
            },
    {
        let n = self.segments.len();
        let mut j: usize = 0;
        while j < n
            invariant
                self.wf(),
                n == self.segments@.len(),
                j <= n,
                j > 0 ==> !self.points().contains_key(id),
            decreases n - j,
        {
            match segment_get_point(&self.segments[j], id, with_vector, with_payload) {
                Some(rec) => {
                    return Some(rec);
                },
                None => {},
            }
            j = j + 1;
        }
        None
    }
}

} // verus!
