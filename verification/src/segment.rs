//! One physical shard: a table of points (id, vector, payload, version)
//! with tombstoned deletion, the mutations routed to it, and — in this
//! module and its trait impls — filtered search with strategy selection.

use crate::filters::{check_filter, filter_matches, filter_wf, validate_filter, Filter};
use crate::index::{filter_of, Index, PayloadIndex, SearchParams};
use crate::scoring::{
    all_before, appears, dot_product, lemma_dot_prefix_bound, sorted_by_score, spec_dot,
    top_k_insert, ScoredPointOffset,
};
use crate::operations::{
    apply_clear_payload, apply_delete_payload, apply_deletes, apply_op, apply_set_payload,
    apply_upserts, clear_payload_one, delete_payload_one, key_views, op_valid, set_payload_one,
    upsert_one, upsert_valid, vector_views, CollectionUpdateOperations, PayloadOps, PointOps,
};
use crate::types::{
    clone_payload, clone_value, kv_view, OperationError, OperationResult, Payload, PayloadValue,
    PointIdType, PointOffsetType, PointV, VectorElementType,
};
use vstd::prelude::*;

verus! {

/// One slot of the point table. A deleted point leaves a tombstone: the
/// offset is never reused.
pub struct PointEntry {
    pub id: PointIdType,
    pub deleted: bool,
    pub vector: Vec<VectorElementType>,
    pub payload: Payload,
    pub version: u64,
}

/// Mathematical content of one live entry.
pub open spec fn entry_v(e: PointEntry) -> PointV {
    PointV { vector: e.vector@, payload: e.payload@, version: e.version }
}

/// Whether offset `off` holds a live (not tombstoned) point.
pub open spec fn live(es: Seq<PointEntry>, off: int) -> bool {
    0 <= off < es.len() && !es[off].deleted
}

/// The id-indexed contents of a point table.
pub open spec fn entries_view(es: Seq<PointEntry>) -> Map<PointIdType, PointV>
    decreases es.len(),
{
    if es.len() == 0 {
        Map::empty()
    } else {
        let m = entries_view(es.drop_last());
        if es.last().deleted {
            m
        } else {
            m.insert(es.last().id, entry_v(es.last()))
        }
    }
}

/// No two live entries share an id.
pub open spec fn live_ids_unique(es: Seq<PointEntry>) -> bool {
    forall|i: int, j: int|
        0 <= i < j < es.len() && !es[i].deleted && !es[j].deleted ==> es[i].id != es[j].id
}

pub proof fn lemma_entries_view_contains(es: Seq<PointEntry>, id: PointIdType)
    ensures
        entries_view(es).contains_key(id) <==> exists|off: int|
            live(es, off) && (#[trigger] es[off]).id == id,
    decreases es.len(),
{
    if es.len() > 0 {
        lemma_entries_view_contains(es.drop_last(), id);
        assert(forall|off: int| 0 <= off < es.len() - 1 ==> es.drop_last()[off] == es[off]);
        if !es.last().deleted && es.last().id == id {
            assert(live(es, es.len() - 1) && es[es.len() - 1].id == id);
        } else {
            if exists|off: int| live(es, off) && (#[trigger] es[off]).id == id {
                let off = choose|off: int| live(es, off) && (#[trigger] es[off]).id == id;
                assert(off < es.len() - 1);
                assert(live(es.drop_last(), off) && es.drop_last()[off].id == id);
            }
        }
    }
}

pub proof fn lemma_entries_view_at(es: Seq<PointEntry>, off: int)
    requires
        live_ids_unique(es),
        live(es, off),
    ensures
        entries_view(es).contains_key(es[off].id),
        entries_view(es)[es[off].id] == entry_v(es[off]),
    decreases es.len(),
{
    if off < es.len() - 1 {
        lemma_entries_view_at(es.drop_last(), off);
        assert(es.drop_last()[off] == es[off]);
        if !es.last().deleted {
            assert(es.last().id != es[off].id);
        }
    }
}

pub proof fn lemma_entries_view_update_live(es: Seq<PointEntry>, off: int, e: PointEntry)
    requires
        live_ids_unique(es),
        live(es, off),
        !e.deleted,
        e.id == es[off].id,
    ensures
        entries_view(es.update(off, e)) == entries_view(es).insert(e.id, entry_v(e)),
        live_ids_unique(es.update(off, e)),
    decreases es.len(),
{
    let s2 = es.update(off, e);
    assert(live_ids_unique(s2));
    if off == es.len() - 1 {
        assert(s2.drop_last() =~= es.drop_last());
        assert(s2.last() == e);
        assert(entries_view(es).insert(e.id, entry_v(e)) =~= entries_view(es.drop_last()).insert(
            e.id,
            entry_v(e),
        ));
    } else {
        lemma_entries_view_update_live(es.drop_last(), off, e);
        assert(es.drop_last()[off] == es[off]);
        assert(s2.drop_last() =~= es.drop_last().update(off, e));
        assert(s2.last() == es.last());
        if es.last().deleted {
        } else {
            assert(es.last().id != e.id);
            assert(entries_view(es.drop_last()).insert(e.id, entry_v(e)).insert(
                es.last().id,
                entry_v(es.last()),
            ) =~= entries_view(es.drop_last()).insert(es.last().id, entry_v(es.last())).insert(
                e.id,
                entry_v(e),
            ));
        }
    }
}

pub proof fn lemma_entries_view_push(es: Seq<PointEntry>, e: PointEntry)
    requires
        live_ids_unique(es),
        !e.deleted,
        forall|off: int| live(es, off) ==> (#[trigger] es[off]).id != e.id,
    ensures
        entries_view(es.push(e)) == entries_view(es).insert(e.id, entry_v(e)),
        live_ids_unique(es.push(e)),
{
    assert(es.push(e).drop_last() =~= es);
    assert(es.push(e).last() == e);
    assert forall|i: int, j: int|
        0 <= i < j < es.push(e).len() && !es.push(e)[i].deleted
            && !es.push(e)[j].deleted implies es.push(e)[i].id != es.push(e)[j].id by {
        if j == es.len() {
            assert(live(es, i));
        }
    }
}

pub proof fn lemma_entries_view_tombstone(es: Seq<PointEntry>, off: int, e: PointEntry)
    requires
        live_ids_unique(es),
        live(es, off),
        e.deleted,
        e.id == es[off].id,
    ensures
        entries_view(es.update(off, e)) == entries_view(es).remove(es[off].id),
        live_ids_unique(es.update(off, e)),
    decreases es.len(),
{
    let s2 = es.update(off, e);
    assert(live_ids_unique(s2));
    let id = es[off].id;
    if off == es.len() - 1 {
        assert(s2.drop_last() =~= es.drop_last());
        lemma_entries_view_contains(es.drop_last(), id);
        assert(forall|j: int| 0 <= j < es.len() - 1 ==> es.drop_last()[j] == es[j]);
        assert(!entries_view(es.drop_last()).contains_key(id));
        assert(entries_view(es.drop_last()).insert(id, entry_v(es.last())).remove(id)
            =~= entries_view(es.drop_last()));
        assert(entries_view(s2) == entries_view(es.drop_last()));
    } else {
        lemma_entries_view_tombstone(es.drop_last(), off, e);
        assert(es.drop_last()[off] == es[off]);
        assert(s2.drop_last() =~= es.drop_last().update(off, e));
        assert(s2.last() == es.last());
        if es.last().deleted {
        } else {
            assert(es.last().id != id);
            assert(entries_view(es.drop_last()).remove(id).insert(
                es.last().id,
                entry_v(es.last()),
            ) =~= entries_view(es.drop_last()).insert(es.last().id, entry_v(es.last())).remove(
                id,
            ));
        }
    }
}

/// Distance metric of a collection. Scores are dot products of the
/// fixed-point coordinates.
#[derive(Clone, Copy, PartialEq, Eq, Structural, Debug)]
pub enum Distance {
    Dot,
}

/// Static configuration a segment is created with.
#[derive(Clone, Copy, PartialEq, Eq, Structural, Debug)]
pub struct SegmentConfig {
    /// Every stored vector and every query must have this length.
    pub vector_size: usize,
    pub distance: Distance,
    /// When a filter is estimated to match fewer points than this, search
    /// enumerates the exact matches and scores them directly instead of
    /// steering the vector index.
    pub full_scan_threshold: usize,
}

/// Lifecycle of a segment. Mutations and searches are accepted while the
/// segment is active or rebuilding its index; a closed segment is terminal.
#[derive(Clone, Copy, PartialEq, Eq, Structural, Debug)]
pub enum SegmentState {
    Active,
    Building,
    Closed,
}

/// One shard: a point table with its configuration and lifecycle state.
pub struct Segment {
    pub config: SegmentConfig,
    pub state: SegmentState,
    pub entries: Vec<PointEntry>,
}

impl Segment {
    /// Internal invariant: live ids are unique, every live vector has the
    /// configured dimension, and every live payload is well formed.
    pub open spec fn wf(&self) -> bool {
        &&& live_ids_unique(self.entries@)
        &&& forall|off: int|
            live(self.entries@, off) ==> (#[trigger] self.entries@[off]).vector@.len()
                == self.config.vector_size && self.entries@[off].payload.wf()
    }

    /// The id-indexed contents of this segment.
    pub open spec fn points(&self) -> Map<PointIdType, PointV> {
        entries_view(self.entries@)
    }

    /// Mutations and searches are only accepted in these states.
    pub open spec fn usable(&self) -> bool {
        self.state is Active || self.state is Building
    }

    /// A fresh, empty, active segment.
    pub fn new(config: SegmentConfig) -> (r: Segment)
        ensures
            r.wf(),
            r.config == config,
            r.state is Active,
            r.points() == Map::<PointIdType, PointV>::empty(),
            r.entries@.len() == 0,
    {
        Segment { config, state: SegmentState::Active, entries: Vec::new() }
    }

    /// Closes the segment; terminal.
    pub fn close(&mut self)
        requires
            old(self).wf(),
        ensures
            final (self).wf(),
            final (self).state is Closed,
            final (self).points() == old(self).points(),
            final (self).config == old(self).config,
    {
        self.state = SegmentState::Closed;
    }

    /// The offset holding the live point with the given id, if any.
    pub fn find_offset(&self, id: PointIdType) -> (r: Option<usize>)
        ensures
            match r {
                Some(off) => live(self.entries@, off as int) && self.entries@[off as int].id
                    == id,
                None => forall|off: int|
                    live(self.entries@, off) ==> (#[trigger] self.entries@[off]).id != id,
            },
    {
        let mut i: usize = 0;
        while i < self.entries.len()
            invariant
                i <= self.entries@.len(),
                forall|off: int|
                    0 <= off < i as int && live(self.entries@, off) ==> (#[trigger] self.entries@[
                        off
                    ]).id != id,
            decreases self.entries@.len() - i as int,
        {
            if !self.entries[i].deleted && self.entries[i].id == id {
                return Some(i);
            }
            i = i + 1;
        }
        None
    }

    /// Inserts the point or replaces its vector: an existing point keeps
    /// its payload and advances its version; a new point starts with an
    /// empty payload at version 1.
    pub fn upsert_point(&mut self, id: PointIdType, vector: Vec<VectorElementType>)
        requires
            old(self).wf(),
            old(self).usable(),
            vector@.len() == old(self).config.vector_size,
        ensures
            final (self).wf(),
            final (self).config == old(self).config,
            final (self).state == old(self).state,
            final (self).points() == upsert_one(old(self).points(), id, vector@),
    {
        let ghost es0 = self.entries@;
        match self.find_offset(id) {
            Some(off) => {
                proof {
                    lemma_entries_view_at(es0, off as int);
                }
                let old_entry = &self.entries[off];
                let new_version = if old_entry.version == u64::MAX {
                    old_entry.version
                } else {
                    old_entry.version + 1
                };
                let payload = clone_payload(&old_entry.payload);
                let e = PointEntry { id, deleted: false, vector, payload, version: new_version };
                proof {
                    lemma_entries_view_update_live(es0, off as int, e);
                }
                self.entries.set(off, e);
                proof {
                    assert(entry_v(e).payload == old(self).points()[id].payload);
                    assert(self.points() =~= upsert_one(old(self).points(), id, entry_v(e).vector));
                }
            },
            None => {
                proof {
                    lemma_entries_view_contains(es0, id);
                }
                let e = PointEntry {
                    id,
                    deleted: false,
                    vector,
                    payload: Payload::new(),
                    version: 1,
                };
                proof {
                    lemma_entries_view_push(es0, e);
                }
                self.entries.push(e);
                proof {
                    assert(!old(self).points().contains_key(id));
                    assert(self.points() =~= upsert_one(old(self).points(), id, entry_v(e).vector));
                }
            },
        }
    }

    /// Deletes the point with the given id; an absent id is a no-op and
    /// not an error. A deleted point leaves a tombstone whose offset never
    /// again appears live.
    pub fn delete_point(&mut self, id: PointIdType)
        requires
            old(self).wf(),
            old(self).usable(),
        ensures
            final (self).wf(),
            final (self).config == old(self).config,
            final (self).state == old(self).state,
            final (self).points() == old(self).points().remove(id),
            final (self).entries@.len() == old(self).entries@.len(),
            forall|off: int|
                live(final (self).entries@, off) <==> live(old(self).entries@, off) && (
                #[trigger] old(self).entries@[off]).id != id,
            forall|off: int|
                live(final (self).entries@, off) ==> final (self).entries@[off] == old(
                    self,
                ).entries@[off],
    {
        let ghost es0 = self.entries@;
        match self.find_offset(id) {
            Some(off) => {
                let old_entry = &self.entries[off];
                let vector = copy_vector(&old_entry.vector);
                let payload = clone_payload(&old_entry.payload);
                let e = PointEntry {
                    id,
                    deleted: true,
                    vector,
                    payload,
                    version: old_entry.version,
                };
                proof {
                    lemma_entries_view_tombstone(es0, off as int, e);
                }
                self.entries.set(off, e);
            },
            None => {
                proof {
                    lemma_entries_view_contains(es0, id);
                    assert(old(self).points().remove(id) =~= old(self).points());
                }
            },
        }
    }
}

impl Segment {
    /// Sets the given fields on the point, keeping its other fields and
    /// advancing its version; an absent id is a no-op.
    pub fn set_payload_point(&mut self, id: PointIdType, fields: &Payload)
        requires
            old(self).wf(),
            old(self).usable(),
            fields.wf(),
        ensures
            final (self).wf(),
            final (self).config == old(self).config,
            final (self).state == old(self).state,
            final (self).points() == set_payload_one(old(self).points(), id, fields@),
    {
        let ghost es0 = self.entries@;
        match self.find_offset(id) {
            None => {
                proof {
                    lemma_entries_view_contains(es0, id);
                }
            },
            Some(off) => {
                proof {
                    lemma_entries_view_at(es0, off as int);
                }
                let old_entry = &self.entries[off];
                let vector = copy_vector(&old_entry.vector);
                let new_version = if old_entry.version == u64::MAX {
                    old_entry.version
                } else {
                    old_entry.version + 1
                };
                let mut payload = clone_payload(&old_entry.payload);
                let ghost p0 = payload@;
                let mut j: usize = 0;
                while j < fields.fields.len()
                    invariant
                        payload.wf(),
                        fields.wf(),
                        j <= fields.fields@.len(),
                        payload@ == p0.union_prefer_right(kv_view(fields.fields@.take(j as int))),
                    decreases fields.fields@.len() - j as int,
                {
                    let key = fields.fields[j].0.clone();
                    let value = clone_value(&fields.fields[j].1);
                    proof {
                        assert(fields.fields@.take(j as int + 1).drop_last() =~= fields.fields@.take(
                            j as int,
                        ));
                        assert(fields.fields@.take(j as int + 1).last() == fields.fields@[j as int]);
                        assert(kv_view(fields.fields@.take(j as int + 1)) == kv_view(
                            fields.fields@.take(j as int),
                        ).insert(key@, value@));
                        assert(p0.union_prefer_right(kv_view(fields.fields@.take(j as int))).insert(
                            key@,
                            value@,
                        ) =~= p0.union_prefer_right(kv_view(fields.fields@.take(j as int + 1))));
                    }
                    payload.set(key, value);
                    j = j + 1;
                }
                proof {
                    assert(fields.fields@.take(fields.fields@.len() as int) =~= fields.fields@);
                }
                let e = PointEntry { id, deleted: false, vector, payload, version: new_version };
                proof {
                    lemma_entries_view_update_live(es0, off as int, e);
                }
                self.entries.set(off, e);
                proof {
                    assert(self.points() =~= set_payload_one(old(self).points(), id, fields@));
                }
            },
        }
    }

    /// Deletes the given fields from the point, advancing its version; an
    /// absent id or an unassigned field is a no-op.
    pub fn delete_payload_point(&mut self, id: PointIdType, keys: &Vec<String>)
        requires
            old(self).wf(),
            old(self).usable(),
        ensures
            final (self).wf(),
            final (self).config == old(self).config,
            final (self).state == old(self).state,
            final (self).points() == delete_payload_one(old(self).points(), id, key_views(keys@)),
    {
        let ghost es0 = self.entries@;
        match self.find_offset(id) {
            None => {
                proof {
                    lemma_entries_view_contains(es0, id);
                }
            },
            Some(off) => {
                proof {
                    lemma_entries_view_at(es0, off as int);
                }
                let old_entry = &self.entries[off];
                let vector = copy_vector(&old_entry.vector);
                let new_version = if old_entry.version == u64::MAX {
                    old_entry.version
                } else {
                    old_entry.version + 1
                };
                let mut payload = clone_payload(&old_entry.payload);
                let ghost p0 = payload@;
                proof {
                    assert(p0.remove_keys(key_views(keys@.take(0))) =~= p0);
                }
                let mut j: usize = 0;
                while j < keys.len()
                    invariant
                        payload.wf(),
                        j <= keys@.len(),
                        payload@ == p0.remove_keys(key_views(keys@.take(j as int))),
                    decreases keys@.len() - j as int,
                {
                    proof {
                        assert(keys@.take(j as int + 1).drop_last() =~= keys@.take(j as int));
                        assert(keys@.take(j as int + 1).last() == keys@[j as int]);
                        assert(key_views(keys@.take(j as int + 1)) == key_views(
                            keys@.take(j as int),
                        ).insert(keys@[j as int]@));
                        assert(p0.remove_keys(key_views(keys@.take(j as int))).remove(
                            keys@[j as int]@,
                        ) =~= p0.remove_keys(key_views(keys@.take(j as int + 1))));
                    }
                    payload.remove_key(&keys[j]);
                    j = j + 1;
                }
                proof {
                    assert(keys@.take(keys@.len() as int) =~= keys@);
                }
                let e = PointEntry { id, deleted: false, vector, payload, version: new_version };
                proof {
                    lemma_entries_view_update_live(es0, off as int, e);
                }
                self.entries.set(off, e);
                proof {
                    assert(self.points() =~= delete_payload_one(
                        old(self).points(),
                        id,
                        key_views(keys@),
                    ));
                }
            },
        }
    }

    /// Drops all payload fields of the point, advancing its version; an
    /// absent id is a no-op.
    pub fn clear_payload_point(&mut self, id: PointIdType)
        requires
            old(self).wf(),
            old(self).usable(),
        ensures
            final (self).wf(),
            final (self).config == old(self).config,
            final (self).state == old(self).state,
            final (self).points() == clear_payload_one(old(self).points(), id),
    {
        let ghost es0 = self.entries@;
        match self.find_offset(id) {
            None => {
                proof {
                    lemma_entries_view_contains(es0, id);
                }
            },
            Some(off) => {
                proof {
                    lemma_entries_view_at(es0, off as int);
                }
                let old_entry = &self.entries[off];
                let vector = copy_vector(&old_entry.vector);
                let new_version = if old_entry.version == u64::MAX {
                    old_entry.version
                } else {
                    old_entry.version + 1
                };
                let e = PointEntry {
                    id,
                    deleted: false,
                    vector,
                    payload: Payload::new(),
                    version: new_version,
                };
                proof {
                    lemma_entries_view_update_live(es0, off as int, e);
                }
                self.entries.set(off, e);
                proof {
                    assert(self.points() =~= clear_payload_one(old(self).points(), id));
                }
            },
        }
    }

    fn upsert_points(&mut self, ids: &Vec<PointIdType>, vectors: &Vec<Vec<VectorElementType>>)
        requires
            old(self).wf(),
            old(self).usable(),
            upsert_valid(*ids, *vectors, old(self).config.vector_size as nat),
        ensures
            final (self).wf(),
            final (self).config == old(self).config,
            final (self).state == old(self).state,
            final (self).points() == apply_upserts(old(self).points(), ids@, vector_views(vectors@)),
    {
        let ghost m0 = self.points();
        proof {
            assert(ids@.take(0) =~= Seq::<PointIdType>::empty());
            assert(vector_views(vectors@).take(0) =~= Seq::<Seq<i32>>::empty());
        }
        let mut i: usize = 0;
        while i < ids.len()
            invariant
                self.wf(),
                self.usable(),
                self.config == old(self).config,
                self.state == old(self).state,
                upsert_valid(*ids, *vectors, self.config.vector_size as nat),
                i <= ids@.len(),
                self.points() == apply_upserts(
                    m0,
                    ids@.take(i as int),
                    vector_views(vectors@).take(i as int),
                ),
            decreases ids@.len() - i as int,
        {
            proof {
                assert((vectors@[i as int])@.len() == self.config.vector_size as nat);
            }
            let v = copy_vector(&vectors[i]);
            let ghost m_prev = self.points();
            self.upsert_point(ids[i], v);
            proof {
                let vs = vector_views(vectors@);
                assert(ids@.take(i as int + 1).drop_last() =~= ids@.take(i as int));
                assert(vs.take(i as int + 1).drop_last() =~= vs.take(i as int));
                assert(ids@.take(i as int + 1).last() == ids@[i as int]);
                assert(vs.take(i as int + 1).last() == (vectors@[i as int])@);
                assert(self.points() == apply_upserts(m0, ids@.take(i as int + 1), vs.take(
                    i as int + 1,
                )));
            }
            i = i + 1;
        }
        proof {
            assert(ids@.take(ids@.len() as int) =~= ids@);
            assert(vector_views(vectors@).take(ids@.len() as int) =~= vector_views(vectors@));
        }
    }

    fn delete_points(&mut self, ids: &Vec<PointIdType>)
        requires
            old(self).wf(),
            old(self).usable(),
        ensures
            final (self).wf(),
            final (self).config == old(self).config,
            final (self).state == old(self).state,
            final (self).points() == apply_deletes(old(self).points(), ids@),
    {
        let ghost m0 = self.points();
        proof {
            assert(ids@.take(0) =~= Seq::<PointIdType>::empty());
        }
        let mut i: usize = 0;
        while i < ids.len()
            invariant
                self.wf(),
                self.usable(),
                self.config == old(self).config,
                self.state == old(self).state,
                i <= ids@.len(),
                self.points() == apply_deletes(m0, ids@.take(i as int)),
            decreases ids@.len() - i as int,
        {
            self.delete_point(ids[i]);
            proof {
                assert(ids@.take(i as int + 1).drop_last() =~= ids@.take(i as int));
                assert(ids@.take(i as int + 1).last() == ids@[i as int]);
            }
            i = i + 1;
        }
        proof {
            assert(ids@.take(ids@.len() as int) =~= ids@);
        }
    }

    fn set_payload_points(&mut self, fields: &Payload, points: &Vec<PointIdType>)
        requires
            old(self).wf(),
            old(self).usable(),
            fields.wf(),
        ensures
            final (self).wf(),
            final (self).config == old(self).config,
            final (self).state == old(self).state,
            final (self).points() == apply_set_payload(old(self).points(), points@, fields@),
    {
        let ghost m0 = self.points();
        proof {
            assert(points@.take(0) =~= Seq::<PointIdType>::empty());
        }
        let mut i: usize = 0;
        while i < points.len()
            invariant
                self.wf(),
                self.usable(),
                self.config == old(self).config,
                self.state == old(self).state,
                fields.wf(),
                i <= points@.len(),
                self.points() == apply_set_payload(m0, points@.take(i as int), fields@),
            decreases points@.len() - i as int,
        {
            self.set_payload_point(points[i], fields);
            proof {
                assert(points@.take(i as int + 1).drop_last() =~= points@.take(i as int));
                assert(points@.take(i as int + 1).last() == points@[i as int]);
            }
            i = i + 1;
        }
        proof {
            assert(points@.take(points@.len() as int) =~= points@);
        }
    }

    fn delete_payload_points(&mut self, keys: &Vec<String>, points: &Vec<PointIdType>)
        requires
            old(self).wf(),
            old(self).usable(),
        ensures
            final (self).wf(),
            final (self).config == old(self).config,
            final (self).state == old(self).state,
            final (self).points() == apply_delete_payload(
                old(self).points(),
                points@,
                key_views(keys@),
            ),
    {
        let ghost m0 = self.points();
        proof {
            assert(points@.take(0) =~= Seq::<PointIdType>::empty());
        }
        let mut i: usize = 0;
        while i < points.len()
            invariant
                self.wf(),
                self.usable(),
                self.config == old(self).config,
                self.state == old(self).state,
                i <= points@.len(),
                self.points() == apply_delete_payload(m0, points@.take(i as int), key_views(keys@)),
            decreases points@.len() - i as int,
        {
            self.delete_payload_point(points[i], keys);
            proof {
                assert(points@.take(i as int + 1).drop_last() =~= points@.take(i as int));
                assert(points@.take(i as int + 1).last() == points@[i as int]);
            }
            i = i + 1;
        }
        proof {
            assert(points@.take(points@.len() as int) =~= points@);
        }
    }

    fn clear_payload_points(&mut self, points: &Vec<PointIdType>)
        requires
            old(self).wf(),
            old(self).usable(),
        ensures
            final (self).wf(),
            final (self).config == old(self).config,
            final (self).state == old(self).state,
            final (self).points() == apply_clear_payload(old(self).points(), points@),
    {
        let ghost m0 = self.points();
        proof {
            assert(points@.take(0) =~= Seq::<PointIdType>::empty());
        }
        let mut i: usize = 0;
        while i < points.len()
            invariant
                self.wf(),
                self.usable(),
                self.config == old(self).config,
                self.state == old(self).state,
                i <= points@.len(),
                self.points() == apply_clear_payload(m0, points@.take(i as int)),
            decreases points@.len() - i as int,
        {
            self.clear_payload_point(points[i]);
            proof {
                assert(points@.take(i as int + 1).drop_last() =~= points@.take(i as int));
                assert(points@.take(i as int + 1).last() == points@[i as int]);
            }
            i = i + 1;
        }
        proof {
            assert(points@.take(points@.len() as int) =~= points@);
        }
    }

    /// Applies one validated update operation to this segment. The new
    /// contents are a pure function of the old contents and the operation,
    /// so replicas that apply the same operations stay identical.
    pub fn apply_operation(&mut self, op: &CollectionUpdateOperations)
        requires
            old(self).wf(),
            old(self).usable(),
            op_valid(*op, old(self).config.vector_size as nat),
        ensures
            final (self).wf(),
            final (self).config == old(self).config,
            final (self).state == old(self).state,
            final (self).points() == apply_op(old(self).points(), *op),
    {
        match op {
            CollectionUpdateOperations::PointOperation(p) => match p {
                PointOps::UpsertPoints { ids, vectors } => {
                    proof {
                        assert(op_valid(*op, old(self).config.vector_size as nat) == upsert_valid(
                            *ids,
                            *vectors,
                            old(self).config.vector_size as nat,
                        ));
                        assert(apply_op(old(self).points(), *op) == apply_upserts(
                            old(self).points(),
                            ids@,
                            vector_views(vectors@),
                        ));
                    }
                    self.upsert_points(ids, vectors);
                },
                PointOps::DeletePoints { ids } => {
                    proof {
                        assert(apply_op(old(self).points(), *op) == apply_deletes(
                            old(self).points(),
                            ids@,
                        ));
                    }
                    self.delete_points(ids);
                },
            },
            CollectionUpdateOperations::PayloadOperation(p) => match p {
                PayloadOps::SetPayload { payload, points } => {
                    proof {
                        assert(apply_op(old(self).points(), *op) == apply_set_payload(
                            old(self).points(),
                            points@,
                            kv_view(payload.fields@),
                        ));
                    }
                    self.set_payload_points(payload, points);
                },
                PayloadOps::DeletePayload { keys, points } => {
                    proof {
                        assert(apply_op(old(self).points(), *op) == apply_delete_payload(
                            old(self).points(),
                            points@,
                            key_views(keys@),
                        ));
                    }
                    self.delete_payload_points(keys, points);
                },
                PayloadOps::ClearPayload { points } => {
                    proof {
                        assert(apply_op(old(self).points(), *op) == apply_clear_payload(
                            old(self).points(),
                            points@,
                        ));
                    }
                    self.clear_payload_points(points);
                },
            },
        }
    }
}

/// Number of live points among the first `n` entries that match `f`.
pub open spec fn match_count_upto(es: Seq<PointEntry>, f: Filter, n: int) -> nat
    decreases n,
{
    if n <= 0 {
        0
    } else {
        match_count_upto(es, f, n - 1) + (if live(es, n - 1) && filter_matches(
            f,
            es[n - 1].payload@,
        ) {
            1nat
        } else {
            0nat
        })
    }
}

/// Number of live points among the first `n` entries.
pub open spec fn live_count_upto(es: Seq<PointEntry>, n: int) -> nat
    decreases n,
{
    if n <= 0 {
        0
    } else {
        live_count_upto(es, n - 1) + (if live(es, n - 1) {
            1nat
        } else {
            0nat
        })
    }
}

pub proof fn lemma_match_le_live(es: Seq<PointEntry>, f: Filter, n: int)
    ensures
        match_count_upto(es, f, n) <= live_count_upto(es, n),
    decreases n,
{
    if n > 0 {
        lemma_match_le_live(es, f, n - 1);
    }
}

/// The dot product of two vectors of at most `usize::MAX` coordinates fits
/// in the score type.
pub proof fn lemma_score_in_range(a: Seq<i32>, b: Seq<i32>)
    requires
        a.len() == b.len(),
        a.len() <= 0xffff_ffff_ffff_ffff,
    ensures
        spec_dot(a, b) as i128 == spec_dot(a, b),
{
    lemma_dot_prefix_bound(a, b, a.len() as int);
    let n = a.len() as int;
    assert(n * 0x4000_0000_0000_0000 <= 0x4000_0000_0000_0000_0000_0000_0000_0000)
        by (nonlinear_arith)
        requires
            0 <= n <= 0xffff_ffff_ffff_ffff,
    ;
    assert(-(n * 0x4000_0000_0000_0000) >= -0x4000_0000_0000_0000_0000_0000_0000_0000);
}

impl Segment {
    /// Whether the live point at `off` satisfies the filter.
    pub open spec fn matches_at(&self, f: Filter, off: int) -> bool {
        live(self.entries@, off) && filter_matches(f, self.entries@[off].payload@)
    }

    /// Filtered search over the exact candidate set enumerated by the
    /// payload index: the strategy chosen when the filter is estimated to
    /// match few points.
    fn search_candidates(
        &self,
        vector: &Vec<VectorElementType>,
        f: &Filter,
        qp: &Vec<PointOffsetType>,
        top: usize,
    ) -> (r: Vec<ScoredPointOffset>)
        requires
            self.wf(),
            self.usable(),
            vector@.len() == self.config.vector_size,
            forall|k1: int, k2: int| 0 <= k1 < k2 < qp@.len() ==> qp@[k1] < qp@[k2],
            forall|k: int| 0 <= k < qp@.len() ==> self.matches_at(*f, (#[trigger] qp@[k]) as int),
            forall|off: int| #[trigger] self.matches_at(*f, off) ==> qp@.contains(off as usize),
        ensures
            self.search_post(vector@, Some(*f), top as int, r@),
    {
        let ghost q = vector@;
        let n_entries = self.entries.len();
        let mut res: Vec<ScoredPointOffset> = Vec::new();
        let mut j: usize = 0;
        while j < qp.len()
            invariant
                self.wf(),
                self.usable(),
                q == vector@,
                n_entries as int == self.entries@.len(),
                vector@.len() == self.config.vector_size,
                forall|k1: int, k2: int| 0 <= k1 < k2 < qp@.len() ==> qp@[k1] < qp@[k2],
                forall|k: int|
                    0 <= k < qp@.len() ==> self.matches_at(*f, (#[trigger] qp@[k]) as int),
                j <= qp@.len(),
                sorted_by_score(res@),
                res@.len() <= top,
                forall|k: int|
                    0 <= k < res@.len() ==> (exists|m: int|
                        0 <= m < j as int && qp@[m] == (#[trigger] res@[k]).idx) && res@[k]
                        == self.scored_at(q, res@[k].idx as int),
                res@.len() < top ==> (forall|m: int|
                    0 <= m < j as int ==> appears(res@, (#[trigger] qp@[m]) as int)),
                forall|m: int|
                    0 <= m < j as int && !appears(res@, (#[trigger] qp@[m]) as int) ==> all_before(
                        res@,
                        self.scored_at(q, qp@[m] as int),
                    ),
            decreases qp@.len() - j as int,
        {
            let off = qp[j];
            proof {
                assert(self.matches_at(*f, qp@[j as int] as int));
                assert(self.entries@[off as int].vector@.len() == self.config.vector_size);
            }
            let score = dot_product(vector, &self.entries[off].vector);
            let c = ScoredPointOffset { idx: off, score };
            proof {
                lemma_score_in_range(q, self.entries@[off as int].vector@);
                assert(c == self.scored_at(q, off as int));
                assert forall|k: int| 0 <= k < res@.len() implies res@[k].idx != c.idx by {
                    let m = choose|m: int| 0 <= m < j as int && qp@[m] == res@[k].idx;
                    assert(qp@[m] < qp@[j as int]);
                }
            }
            let ghost s0 = res@;
            top_k_insert(&mut res, c, top);
            proof {
                assert forall|k: int| 0 <= k < res@.len() implies (exists|m: int|
                    0 <= m < j as int + 1 && qp@[m] == (#[trigger] res@[k]).idx) && res@[k]
                    == self.scored_at(q, res@[k].idx as int) by {
                    assert(res@.contains(res@[k]));
                    if s0.contains(res@[k]) {
                        let k0 = choose|k0: int| 0 <= k0 < s0.len() && s0[k0] == res@[k];
                        let m = choose|m: int| 0 <= m < j as int && qp@[m] == s0[k0].idx;
                        assert(0 <= m < j as int + 1 && qp@[m] == res@[k].idx);
                    } else {
                        assert(res@[k] == c);
                        assert(qp@[j as int] == res@[k].idx);
                    }
                }
                if res@.len() < top {
                    assert(s0.len() < top);
                    assert forall|m: int|
                        0 <= m < j as int + 1 implies appears(res@, (#[trigger] qp@[m]) as int) by {
                        if m == j as int {
                            assert(res@.contains(c));
                            let kc = choose|kc: int| 0 <= kc < res@.len() && res@[kc] == c;
                            assert(res@[kc].idx == qp@[m] as int);
                        } else {
                            assert(appears(s0, qp@[m] as int));
                            let k0 = choose|k0: int|
                                0 <= k0 < s0.len() && s0[k0].idx == qp@[m] as int;
                            assert(s0.contains(s0[k0]));
                            assert(res@.contains(s0[k0]));
                            let k1 = choose|k1: int| 0 <= k1 < res@.len() && res@[k1] == s0[k0];
                            assert(res@[k1].idx == qp@[m] as int);
                        }
                    }
                }
                assert forall|m: int|
                    0 <= m < j as int + 1 && !appears(res@, (#[trigger] qp@[m]) as int)
                    implies all_before(res@, self.scored_at(q, qp@[m] as int)) by {
                    let x = self.scored_at(q, qp@[m] as int);
                    if m == j as int {
                        assert(x == c);
                        assert(!res@.contains(x)) by {
                            if res@.contains(x) {
                                let kc = choose|kc: int| 0 <= kc < res@.len() && res@[kc] == x;
                                assert(res@[kc].idx == qp@[m] as int);
                                assert(appears(res@, qp@[m] as int));
                            }
                        }
                        assert(all_before(res@, x));
                    } else if appears(s0, qp@[m] as int) {
                        let k0 = choose|k0: int| 0 <= k0 < s0.len() && s0[k0].idx == qp@[m] as int;
                        assert(s0[k0] == self.scored_at(q, s0[k0].idx as int));
                        assert(s0[k0] == x);
                        assert(s0.contains(x));
                        assert(!res@.contains(x)) by {
                            if res@.contains(x) {
                                let kc = choose|kc: int| 0 <= kc < res@.len() && res@[kc] == x;
                                assert(appears(res@, qp@[m] as int));
                            }
                        }
                        assert(all_before(res@, x));
                    } else {
                        assert(!appears(s0, qp@[m] as int));
                        assert(all_before(s0, x));
                        assert(s0.len() == top as int) by {
                            if s0.len() < top {
                                assert(appears(s0, qp@[m] as int));
                            }
                        }
                        assert(all_before(res@, x));
                    }
                }
            }
            j = j + 1;
        }
        proof {
            let fo = Some(*f);
            assert forall|k: int|
                0 <= k < res@.len() implies self.candidate(fo, (#[trigger] res@[k]).idx as int)
                && res@[k] == self.scored_at(q, res@[k].idx as int) by {
                let m = choose|m: int| 0 <= m < qp@.len() && qp@[m] == res@[k].idx;
                assert(self.matches_at(*f, qp@[m] as int));
            }
            if res@.len() < top {
                assert forall|off: int| #[trigger]
                    self.candidate(fo, off) implies appears(res@, off) by {
                    assert(self.matches_at(*f, off));
                    assert(0 <= off < n_entries as int);
                    assert(qp@.contains(off as usize));
                    let m = choose|m: int| 0 <= m < qp@.len() && qp@[m] == off as usize;
                    assert(qp@[m] as int == off);
                    assert(appears(res@, qp@[m] as int));
                }
            }
            assert forall|off: int| #[trigger]
                self.candidate(fo, off) && !appears(res@, off) implies all_before(
                res@,
                self.scored_at(q, off),
            ) by {
                assert(self.matches_at(*f, off));
                assert(0 <= off < n_entries as int);
                assert(qp@.contains(off as usize));
                let m = choose|m: int| 0 <= m < qp@.len() && qp@[m] == off as usize;
                assert(qp@[m] as int == off);
                assert(!appears(res@, qp@[m] as int));
                assert(all_before(res@, self.scored_at(q, qp@[m] as int)));
            }
        }
        res
    }

    /// Filtered search with strategy selection, the segment's core duty:
    /// validate the filter; then, if the estimated cardinality is below the
    /// configured threshold (or exact search is forced), enumerate the
    /// exact matches and score them directly; otherwise delegate to the
    /// vector index with the filter passed through. The branch decision is
    /// a pure function of the estimate and the threshold.
    pub fn search(
        &self,
        vector: &Vec<VectorElementType>,
        filter: Option<&Filter>,
        top: usize,
        params: Option<&SearchParams>,
    ) -> (r: OperationResult<Vec<ScoredPointOffset>>)
        requires
            self.wf(),
            self.usable(),
            vector@.len() == self.config.vector_size,
        ensures
            match r {
                Ok(rs) => self.search_post(vector@, filter_of(filter), top as int, rs@),
                Err(e) => e is ValidationError,
            },
            r is Ok <==> (filter matches Some(f) ==> filter_wf(*f)),
    {
        match filter {
            None => Ok(Index::search(self, vector, None, top, params)),
            Some(f) => {
                if !validate_filter(f) {
                    return Err(OperationError::ValidationError {
                        description: "malformed filter condition".to_string(),
                    });
                }
                let exact = match params {
                    Some(p) => match p.exact {
                        Some(b) => b,
                        None => false,
                    },
                    None => false,
                };
                let (_min_cost, max_cost) = PayloadIndex::estimate_cardinality(self, f);
                if exact || max_cost < self.config.full_scan_threshold {
                    let qp = PayloadIndex::query_points(self, f);
                    proof {
                        assert forall|off: int| #[trigger]
                            self.matches_at(*f, off) implies qp@.contains(off as usize) by {
                            assert(self.pmatches(*f, off));
                        }
                        assert forall|k: int| 0 <= k < qp@.len() implies self.matches_at(
                            *f,
                            (#[trigger] qp@[k]) as int,
                        ) by {
                            assert(self.pmatches(*f, qp@[k] as int));
                        }
                    }
                    Ok(self.search_candidates(vector, f, &qp, top))
                } else {
                    Ok(Index::search(self, vector, Some(f), top, params))
                }
            },
        }
    }
}

impl Index for Segment {
    open spec fn inv(&self) -> bool {
        self.wf() && self.usable()
    }

    open spec fn dim(&self) -> nat {
        self.config.vector_size as nat
    }

    open spec fn candidate(&self, f: Option<Filter>, off: int) -> bool {
        live(self.entries@, off) && (f matches Some(ff) ==> filter_matches(
            ff,
            self.entries@[off].payload@,
        ))
    }

    open spec fn score_of(&self, q: Seq<i32>, off: int) -> int {
        spec_dot(q, self.entries@[off].vector@)
    }

    /// Flat scan: scores every live point that passes the filter and keeps
    /// the best `top`.
    fn search(
        &self,
        vector: &Vec<VectorElementType>,
        filter: Option<&Filter>,
        top: usize,
        params: Option<&SearchParams>,
    ) -> (r: Vec<ScoredPointOffset>) {
        let ghost q = vector@;
        let ghost fo = filter_of(filter);
        let mut res: Vec<ScoredPointOffset> = Vec::new();
        let n = self.entries.len();
        let mut off: usize = 0;
        while off < n
            invariant
                self.wf(),
                self.usable(),
                vector@.len() == self.config.vector_size,
                q == vector@,
                fo == filter_of(filter),
                n == self.entries@.len(),
                off <= n,
                sorted_by_score(res@),
                res@.len() <= top,
                forall|k: int|
                    0 <= k < res@.len() ==> self.candidate(fo, (#[trigger] res@[k]).idx as int) && (
                    res@[k].idx as int) < off as int && res@[k] == self.scored_at(
                        q,
                        res@[k].idx as int,
                    ),
                res@.len() < top ==> (forall|o: int|
                    0 <= o < off as int && #[trigger] self.candidate(fo, o) ==> appears(res@, o)),
                forall|o: int|
                    0 <= o < off as int && #[trigger] self.candidate(fo, o) && !appears(res@, o)
                        ==> all_before(res@, self.scored_at(q, o)),
            decreases n - off,
        {
            let is_cand = match filter {
                Some(f) => {
                    if self.entries[off].deleted {
                        false
                    } else {
                        check_filter(f, &self.entries[off].payload)
                    }
                },
                None => !self.entries[off].deleted,
            };
            proof {
                assert(is_cand == self.candidate(fo, off as int));
            }
            if is_cand {
                proof {
                    assert(live(self.entries@, off as int));
                    assert(self.entries@[off as int].vector@.len() == self.config.vector_size);
                }
                let score = dot_product(vector, &self.entries[off].vector);
                let c = ScoredPointOffset { idx: off, score };
                proof {
                    lemma_score_in_range(q, self.entries@[off as int].vector@);
                    assert(c == self.scored_at(q, off as int));
                }
                let ghost s0 = res@;
                top_k_insert(&mut res, c, top);
                proof {
                    assert forall|k: int|
                        0 <= k < res@.len() implies self.candidate(
                        fo,
                        (#[trigger] res@[k]).idx as int,
                    ) && (res@[k].idx as int) < off as int + 1 && res@[k] == self.scored_at(
                        q,
                        res@[k].idx as int,
                    ) by {
                        assert(res@.contains(res@[k]));
                        if s0.contains(res@[k]) {
                            let k0 = choose|k0: int| 0 <= k0 < s0.len() && s0[k0] == res@[k];
                        } else {
                            assert(res@[k] == c);
                        }
                    }
                    if res@.len() < top {
                        assert(s0.len() < top);
                        assert forall|o: int|
                            0 <= o < off as int + 1 && #[trigger] self.candidate(fo, o)
                            implies appears(res@, o) by {
                            if o == off as int {
                                assert(res@.contains(c));
                                let kc = choose|kc: int| 0 <= kc < res@.len() && res@[kc] == c;
                                assert(res@[kc].idx == o);
                            } else {
                                assert(appears(s0, o));
                                let k0 = choose|k0: int| 0 <= k0 < s0.len() && s0[k0].idx == o;
                                assert(s0.contains(s0[k0]));
                                assert(res@.contains(s0[k0]));
                                let k1 = choose|k1: int| 0 <= k1 < res@.len() && res@[k1] == s0[k0];
                                assert(res@[k1].idx == o);
                            }
                        }
                    }
                    assert forall|o: int|
                        0 <= o < off as int + 1 && #[trigger] self.candidate(fo, o) && !appears(
                            res@,
                            o,
                        ) implies all_before(res@, self.scored_at(q, o)) by {
                        let x = self.scored_at(q, o);
                        if o == off as int {
                            assert(x == c);
                            assert(!res@.contains(x)) by {
                                if res@.contains(x) {
                                    let kc = choose|kc: int| 0 <= kc < res@.len() && res@[kc] == x;
                                    assert(res@[kc].idx == o);
                                    assert(appears(res@, o));
                                }
                            }
                            assert(all_before(res@, x));
                        } else if appears(s0, o) {
                            let k0 = choose|k0: int| 0 <= k0 < s0.len() && s0[k0].idx == o;
                            assert(s0[k0] == self.scored_at(q, s0[k0].idx as int));
                            assert(s0[k0] == x);
                            assert(s0.contains(x));
                            assert(!res@.contains(x)) by {
                                if res@.contains(x) {
                                    let kc = choose|kc: int| 0 <= kc < res@.len() && res@[kc] == x;
                                    assert(appears(res@, o));
                                }
                            }
                            assert(all_before(res@, x));
                        } else {
                            assert(all_before(s0, x));
                            assert(s0.len() == top as int) by {
                                if s0.len() < top {
                                    assert(appears(s0, o));
                                }
                            }
                            assert(all_before(res@, x));
                        }
                    }
                }
            }
            off = off + 1;
        }
        res
    }

    /// A flat table has no auxiliary structure, so a rebuild finishes
    /// immediately and leaves the searchable contents unchanged.
    fn build_index(&mut self) -> (r: OperationResult<()>) {
        Ok(())
    }
}

impl PayloadIndex for Segment {
    open spec fn inv(&self) -> bool {
        self.wf() && self.usable()
    }

    open spec fn total_points(&self) -> nat {
        live_count_upto(self.entries@, self.entries@.len() as int)
    }

    open spec fn pmatches(&self, f: Filter, off: int) -> bool {
        self.matches_at(f, off)
    }

    open spec fn match_count(&self, f: Filter) -> nat {
        match_count_upto(self.entries@, f, self.entries@.len() as int)
    }

    /// Exact count of the matching points; the two bounds coincide. Still
    /// a hint only: callers use it to pick a strategy, never for
    /// correctness.
    fn estimate_cardinality(&self, query: &Filter) -> (r: (usize, usize)) {
        let n = self.entries.len();
        let mut cnt: usize = 0;
        let mut off: usize = 0;
        while off < n
            invariant
                self.wf(),
                n == self.entries@.len(),
                off <= n,
                cnt <= off,
                cnt as int == match_count_upto(self.entries@, *query, off as int),
            decreases n - off,
        {
            let is_m = if self.entries[off].deleted {
                false
            } else {
                check_filter(query, &self.entries[off].payload)
            };
            if is_m {
                cnt = cnt + 1;
            }
            off = off + 1;
        }
        proof {
            lemma_match_le_live(self.entries@, *query, n as int);
            lemma_live_count_bound(self.entries@, n as int);
        }
        (cnt, cnt)
    }

    /// Exact enumeration of the matching offsets, ascending.
    fn query_points(&self, query: &Filter) -> (r: Vec<PointOffsetType>) {
        let n = self.entries.len();
        let mut out: Vec<PointOffsetType> = Vec::new();
        let mut off: usize = 0;
        while off < n
            invariant
                self.wf(),
                n == self.entries@.len(),
                off <= n,
                forall|k1: int, k2: int| 0 <= k1 < k2 < out@.len() ==> out@[k1] < out@[k2],
                forall|k: int|
                    0 <= k < out@.len() ==> ((#[trigger] out@[k]) as int) < off as int
                        && self.matches_at(*query, out@[k] as int),
                forall|o: int|
                    0 <= o < off as int && #[trigger] self.matches_at(*query, o) ==> out@.contains(
                        o as usize,
                    ),
                out@.len() == match_count_upto(self.entries@, *query, off as int),
            decreases n - off,
        {
            let is_m = if self.entries[off].deleted {
                false
            } else {
                check_filter(query, &self.entries[off].payload)
            };
            if is_m {
                let ghost s0 = out@;
                out.push(off);
                proof {
                    assert(out@ == s0.push(off));
                    assert(out@[out@.len() - 1] == off);
                    assert(forall|k: int| 0 <= k < s0.len() ==> out@[k] == s0[k]);
                    assert forall|o: int|
                        0 <= o < off as int + 1 && #[trigger] self.matches_at(*query, o)
                        implies out@.contains(o as usize) by {
                        if o == off as int {
                            assert(out@[out@.len() - 1] == o as usize);
                        } else {
                            assert(s0.contains(o as usize));
                            let k = choose|k: int| 0 <= k < s0.len() && s0[k] == o as usize;
                            assert(out@[k] == o as usize);
                        }
                    }
                }
            } else {
                proof {
                    assert forall|o: int|
                        0 <= o < off as int + 1 && #[trigger] self.matches_at(*query, o)
                        implies out@.contains(o as usize) by {
                        assert(o != off as int);
                    }
                }
            }
            off = off + 1;
        }
        proof {
            assert forall|o: int| #[trigger]
                self.matches_at(*query, o) implies out@.contains(o as usize) by {
                assert(0 <= o < n as int);
            }
        }
        out
    }
}

/// The live count of the first `n` entries never exceeds `n`.
pub proof fn lemma_live_count_bound(es: Seq<PointEntry>, n: int)
    requires
        0 <= n,
    ensures
        live_count_upto(es, n) <= n,
    decreases n,
{
    if n > 0 {
        lemma_live_count_bound(es, n - 1);
    }
}

/// Copies a vector of coordinates; the copy has the same view.
pub fn copy_vector(v: &Vec<VectorElementType>) -> (r: Vec<VectorElementType>)
    ensures
        r@ == v@,
{
    let mut out: Vec<VectorElementType> = Vec::new();
    let mut i: usize = 0;
    while i < v.len()
        invariant
            i <= v@.len(),
            out@ =~= v@.take(i as int),
        decreases v@.len() - i as int,
    {
        out.push(v[i]);
        i = i + 1;
    }
    proof {
        assert(v@.take(v@.len() as int) =~= v@);
    }
    out
}

} // verus!
