//! The boundary layer consumed by the transport: request parameter shapes,
//! the registry from collection name to collection, and the computation
//! behind each endpoint, with "not found" mapped to a typed error.

use crate::collection::{
    record_of, records_view, retrieve_spec, Collection, Record, UpdateResult,
};
use crate::operations::{apply_op, op_valid, CollectionUpdateOperations};
use crate::types::{PointIdType, StorageError};
use vstd::prelude::*;

verus! {

/// Body of a multi-point retrieval request.
pub struct PointRequest {
    pub ids: Vec<PointIdType>,
}

/// Query parameters of an update request.
pub struct UpdateParam {
    pub wait: Option<bool>,
}

/// One collection, as listed to clients.
pub struct CollectionDescription {
    pub name: String,
}

/// Answer to a list-collections request.
pub struct CollectionsResponse {
    pub collections: Vec<CollectionDescription>,
}

/// The first collection registered under `name`, if any.
pub open spec fn lookup(s: Seq<(String, Collection)>, name: Seq<char>) -> Option<Collection>
    decreases s.len(),
{
    if s.len() == 0 {
        None
    } else if s[0].0@ == name {
        Some(s[0].1)
    } else {
        lookup(s.skip(1), name)
    }
}

pub proof fn lemma_lookup_first(s: Seq<(String, Collection)>, name: Seq<char>, i: int)
    requires
        0 <= i < s.len(),
        s[i].0@ == name,
        forall|j: int| 0 <= j < i ==> s[j].0@ != name,
    ensures
        lookup(s, name) == Some(s[i].1),
    decreases i,
{
    if i > 0 {
        assert(forall|j: int| 0 <= j < s.skip(1).len() ==> s.skip(1)[j] == s[j + 1]);
        lemma_lookup_first(s.skip(1), name, i - 1);
    }
}

pub proof fn lemma_lookup_none(s: Seq<(String, Collection)>, name: Seq<char>)
    requires
        forall|j: int| 0 <= j < s.len() ==> (#[trigger] s[j]).0@ != name,
    ensures
        lookup(s, name) is None,
    decreases s.len(),
{
    if s.len() > 0 {
        assert(forall|j: int| 0 <= j < s.skip(1).len() ==> s.skip(1)[j] == s[j + 1]);
        lemma_lookup_none(s.skip(1), name);
    }
}

/// The process-wide table from collection name to collection instance,
/// modeled as explicitly owned state handed to the request handlers.
pub struct TableOfContent {
    pub collections: Vec<(String, Collection)>,
}

impl TableOfContent {
    /// Internal invariant: every registered collection is well formed.
    pub open spec fn wf(&self) -> bool {
        forall|i: int|
            0 <= i < self.collections@.len() ==> (#[trigger] self.collections@[i]).1.wf()
    }

    /// An empty registry.
    pub fn new() -> (r: TableOfContent)
        ensures
            r.wf(),
            r.collections@.len() == 0,
    {
        TableOfContent { collections: Vec::new() }
    }

    /// Registers a collection under a name; a later entry never shadows an
    /// earlier one of the same name.
    pub fn add_collection(&mut self, name: String, collection: Collection)
        requires
            old(self).wf(),
            collection.wf(),
        ensures
            final (self).wf(),
            final (self).collections@ == old(self).collections@.push((name, collection)),
    {
        self.collections.push((name, collection));
    }

    /// The lookup capability the core needs from the registry: the first
    /// collection of that name, or a typed "not found".
    pub fn get_collection(&self, name: &String) -> (r: Result<&Collection, StorageError>)
        requires
            self.wf(),
        ensures
            match r {
                Ok(c) => lookup(self.collections@, name@) == Some(*c) && c.wf(),
                Err(e) => lookup(self.collections@, name@) is None && e is NotFound,
            },
    {
        let mut i: usize = 0;
        let n = self.collections.len();
        while i < n
            invariant
                self.wf(),
                n == self.collections@.len(),
                i <= n,
                forall|j: int| 0 <= j < i as int ==> (#[trigger] self.collections@[j]).0@ != name@,
            decreases n - i,
        {
            if self.collections[i].0 == *name {
                proof {
                    lemma_lookup_first(self.collections@, name@, i as int);
                }
                return Ok(&self.collections[i].1);
            }
            i = i + 1;
        }
        proof {
            lemma_lookup_none(self.collections@, name@);
        }
        Err(
            StorageError::NotFound {
                description: "collection is not found".to_string(),
            },
        )
    }
}

/// Computation behind the single-point fetch endpoint: look the collection
/// up, retrieve the point with vector and payload, and map an id stored
/// nowhere to a typed "not found".
pub fn get_point_core(toc: &TableOfContent, name: &String, point_id: PointIdType) -> (r: Result<
    Record,
    StorageError,
>)
    requires
        toc.wf(),
    ensures
        match lookup(toc.collections@, name@) {
            None => r matches Err(e) && e is NotFound,
            Some(c) => match r {
                Ok(rec) => c.points().contains_key(point_id) && rec@ == record_of(
                    point_id,
                    c.points()[point_id],
                    true,
                    true,
                ),
                Err(e) => !c.points().contains_key(point_id) && e is NotFound,
            },
        },
{
    let collection = match toc.get_collection(name) {
        Ok(c) => c,
        Err(e) => {
            return Err(e);
        },
    };
    match collection.get_record(point_id, true, true) {
        Some(rec) => Ok(rec),
        None => Err(
            StorageError::NotFound {
                description: "point with this id does not exist".to_string(),
            },
        ),
    }
}

/// Computation behind the multi-point fetch endpoint: retrieve each
/// requested id with vector and payload; absent ids are omitted.
pub fn get_vectors_core(toc: &TableOfContent, name: &String, request: &PointRequest) -> (r: Result<
    Vec<Record>,
    StorageError,
>)
    requires
        toc.wf(),
    ensures
        match lookup(toc.collections@, name@) {
            None => r matches Err(e) && e is NotFound,
            Some(c) => r matches Ok(recs) && records_view(recs@) == retrieve_spec(
                c.points(),
                request.ids@,
                true,
                true,
            ),
        },
{
    let collection = match toc.get_collection(name) {
        Ok(c) => c,
        Err(e) => {
            return Err(e);
        },
    };
    match collection.retrieve(&request.ids, true, true) {
        Ok(recs) => Ok(recs),
        Err(e) => Err(StorageError::from_operation(e)),
    }
}

/// Computation behind the update endpoint: look the collection up and
/// replicate the operation to all its segments; `wait` defaults to false.
pub fn update_points_core(
    toc: &mut TableOfContent,
    name: &String,
    operation: CollectionUpdateOperations,
    params: &UpdateParam,
) -> (r: Result<UpdateResult, StorageError>)
    requires
        old(toc).wf(),
    ensures
        final (toc).wf(),
        final (toc).collections@.len() == old(toc).collections@.len(),
        forall|i: int|
            0 <= i < old(toc).collections@.len() ==> (#[trigger] final (toc).collections@[i]).0
                == old(toc).collections@[i].0 && (old(toc).collections@[i].0@ != name@ ==> final (
            toc).collections@[i].1 == old(toc).collections@[i].1),
        match lookup(old(toc).collections@, name@) {
            None => r matches Err(e) && e is NotFound && final (toc).collections@ == old(
                toc,
            ).collections@,
            Some(c) => {
                &&& (r is Ok <==> op_valid(operation, c.config.vector_size as nat))
                &&& (r is Ok ==> (lookup(final (toc).collections@, name@) matches Some(c2)
                    && c2.points() == apply_op(c.points(), operation) && c2.config == c.config))
                &&& (r is Err ==> final (toc).collections@ == old(toc).collections@ && (
                r matches Err(e) ==> e is BadInput))
            },
        },
{
    let wait = match params.wait {
        Some(b) => b,
        None => false,
    };
    let mut i: usize = 0;
    let n = toc.collections.len();
    while i < n
        invariant
            toc.wf(),
            *toc == *old(toc),
            n == toc.collections@.len(),
            i <= n,
            forall|j: int| 0 <= j < i as int ==> (#[trigger] toc.collections@[j]).0@ != name@,
        decreases n - i,
    {
        if toc.collections[i].0 == *name {
            proof {
                lemma_lookup_first(toc.collections@, name@, i as int);
            }
            let ghost s0 = toc.collections@;
            let (cname, mut collection) = toc.collections.remove(i);
            let result = collection.update(operation, wait);
            toc.collections.insert(i, (cname, collection));
            proof {
                assert(toc.collections@ =~= s0.update(i as int, toc.collections@[i as int]));
                assert(toc.collections@[i as int].0@ == name@);
                if result is Ok {
                    lemma_lookup_first(toc.collections@, name@, i as int);
                } else {
                    assert(toc.collections@ =~= s0);
                }
            }
            return match result {
                Ok(u) => Ok(u),
                Err(e) => Err(e),
            };
        }
        i = i + 1;
    }
    proof {
        lemma_lookup_none(toc.collections@, name@);
    }
    Err(
        StorageError::NotFound {
            description: "collection is not found".to_string(),
        },
    )
}

/// Lists the registered collections by name.
pub fn list_collections(toc: &TableOfContent) -> (r: CollectionsResponse)
    requires
        toc.wf(),
    ensures
        r.collections@.len() == toc.collections@.len(),
        forall|i: int|
            0 <= i < toc.collections@.len() ==> (#[trigger] r.collections@[i]).name@
                == toc.collections@[i].0@,
{
    let mut out: Vec<CollectionDescription> = Vec::new();
    let mut i: usize = 0;
    let n = toc.collections.len();
    while i < n
        invariant
            n == toc.collections@.len(),
            i <= n,
            out@.len() == i as int,
            forall|k: int|
                0 <= k < i as int ==> (#[trigger] out@[k]).name@ == toc.collections@[k].0@,
        decreases n - i,
    {
        out.push(CollectionDescription { name: toc.collections[i].0.clone() });
        i = i + 1;
    }
    CollectionsResponse { collections: out }
}

} // verus!
