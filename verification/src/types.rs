//! Identifiers, payload values, and the small value model that contracts
//! in the rest of the crate are stated over.

use vstd::prelude::*;

verus! {

/// External identifier of a stored point; unique across a whole collection.
pub type PointIdType = u64;

/// Dense per-segment offset of a stored point.
pub type PointOffsetType = usize;

/// One coordinate of a stored vector, as a fixed-point integer.
pub type VectorElementType = i32;

/// Similarity score. Wide enough that the dot product of any two vectors
/// of `VectorElementType` coordinates fits without overflow.
pub type ScoreType = i128;

/// Geographic position in integer micro-degrees.
#[derive(Clone, Copy, PartialEq, Eq, Structural, Debug)]
pub struct GeoPoint {
    pub lon: i64,
    pub lat: i64,
}

/// A single payload field value without inner structure.
pub enum ScalarValue {
    Bool(bool),
    Int(i64),
    Keyword(String),
}

/// A payload field value: a scalar, a sequence of scalars, or a geo point.
pub enum PayloadValue {
    Scalar(ScalarValue),
    List(Vec<ScalarValue>),
    Geo(GeoPoint),
}

/// Mathematical shape of a payload value, used in contracts.
pub enum ValueV {
    Bool(bool),
    Int(int),
    Keyword(Seq<char>),
    List(Seq<ValueV>),
    Geo { lon: int, lat: int },
}

impl View for ScalarValue {
    type V = ValueV;

    open spec fn view(&self) -> ValueV {
        match self {
            ScalarValue::Bool(b) => ValueV::Bool(*b),
            ScalarValue::Int(i) => ValueV::Int(*i as int),
            ScalarValue::Keyword(s) => ValueV::Keyword(s@),
        }
    }
}

/// Views of a sequence of scalar values, element by element.
pub open spec fn scalar_views(xs: Seq<ScalarValue>) -> Seq<ValueV> {
    xs.map_values(|x: ScalarValue| x@)
}

impl View for PayloadValue {
    type V = ValueV;

    open spec fn view(&self) -> ValueV {
        match self {
            PayloadValue::Scalar(s) => s@,
            PayloadValue::List(xs) => ValueV::List(scalar_views(xs@)),
            PayloadValue::Geo(g) => ValueV::Geo { lon: g.lon as int, lat: g.lat as int },
        }
    }
}

/// Clones a scalar payload value; the copy has the same view.
pub fn clone_scalar(v: &ScalarValue) -> (r: ScalarValue)
    ensures
        r@ == v@,
{
    match v {
        ScalarValue::Bool(b) => ScalarValue::Bool(*b),
        ScalarValue::Int(i) => ScalarValue::Int(*i),
        ScalarValue::Keyword(s) => ScalarValue::Keyword(s.clone()),
    }
}

/// Clones a payload value; the copy has the same view.
pub fn clone_value(v: &PayloadValue) -> (r: PayloadValue)
    ensures
        r@ == v@,
{
    match v {
        PayloadValue::Scalar(s) => PayloadValue::Scalar(clone_scalar(s)),
        PayloadValue::List(xs) => {
            let mut out: Vec<ScalarValue> = Vec::new();
            let mut i: usize = 0;
            while i < xs.len()
                invariant
                    i <= xs.len(),
                    out@.len() == i as int,
                    forall|k: int| 0 <= k < i as int ==> out@[k]@ == xs@[k]@,
                decreases xs.len() - i,
            {
                out.push(clone_scalar(&xs[i]));
                i = i + 1;
            }
            proof {
                assert(scalar_views(out@) =~= scalar_views(xs@));
            }
            PayloadValue::List(out)
        },
        PayloadValue::Geo(g) => PayloadValue::Geo(*g),
    }
}

/// Mathematical shape of one stored point: its vector, payload and
/// per-point version clock.
pub struct PointV {
    pub vector: Seq<i32>,
    pub payload: Map<Seq<char>, ValueV>,
    pub version: u64,
}

/// Map view of an association list of payload fields; a later entry for the
/// same key wins.
pub open spec fn kv_view(s: Seq<(String, PayloadValue)>) -> Map<Seq<char>, ValueV>
    decreases s.len(),
{
    if s.len() == 0 {
        Map::empty()
    } else {
        kv_view(s.drop_last()).insert(s.last().0@, s.last().1@)
    }
}

/// No two entries of the association list share a key.
pub open spec fn keys_unique(s: Seq<(String, PayloadValue)>) -> bool {
    forall|i: int, j: int| 0 <= i < j < s.len() ==> s[i].0@ != s[j].0@
}

pub proof fn lemma_kv_view_contains(s: Seq<(String, PayloadValue)>, k: Seq<char>)
    ensures
        kv_view(s).contains_key(k) <==> exists|i: int| 0 <= i < s.len() && s[i].0@ == k,
    decreases s.len(),
{
    if s.len() > 0 {
        lemma_kv_view_contains(s.drop_last(), k);
        if s.last().0@ == k {
            assert(s[s.len() - 1].0@ == k);
        } else {
            assert(forall|i: int|
                0 <= i < s.len() - 1 ==> s.drop_last()[i] == s[i]);
            if exists|i: int| 0 <= i < s.len() && s[i].0@ == k {
                let i = choose|i: int| 0 <= i < s.len() && s[i].0@ == k;
                assert(0 <= i < s.len() - 1 && s.drop_last()[i].0@ == k);
            }
        }
    }
}

pub proof fn lemma_kv_view_index(s: Seq<(String, PayloadValue)>, i: int)
    requires
        keys_unique(s),
        0 <= i < s.len(),
    ensures
        kv_view(s).contains_key(s[i].0@),
        kv_view(s)[s[i].0@] == s[i].1@,
    decreases s.len(),
{
    if i < s.len() - 1 {
        lemma_kv_view_index(s.drop_last(), i);
        assert(s.drop_last()[i] == s[i]);
    }
}

pub proof fn lemma_kv_view_update(s: Seq<(String, PayloadValue)>, i: int, kv: (String, PayloadValue))
    requires
        keys_unique(s),
        0 <= i < s.len(),
        kv.0@ == s[i].0@,
    ensures
        kv_view(s.update(i, kv)) == kv_view(s).insert(kv.0@, kv.1@),
    decreases s.len(),
{
    let s2 = s.update(i, kv);
    if i == s.len() - 1 {
        assert(s2.drop_last() =~= s.drop_last());
        assert(s2.last() == kv);
        assert(kv_view(s.drop_last()).insert(kv.0@, kv.1@) =~= kv_view(s).insert(
            kv.0@,
            kv.1@,
        ));
    } else {
        lemma_kv_view_update(s.drop_last(), i, kv);
        assert(s.drop_last()[i] == s[i]);
        assert(s2.drop_last() =~= s.drop_last().update(i, kv));
        assert(s2.last() == s.last());
        assert(kv_view(s2) == kv_view(s.drop_last()).insert(kv.0@, kv.1@).insert(
            s.last().0@,
            s.last().1@,
        ));
        // the updated key and the last key differ, so the inserts commute
        assert(s.last().0@ != kv.0@);
        assert(kv_view(s.drop_last()).insert(kv.0@, kv.1@).insert(s.last().0@, s.last().1@)
            =~= kv_view(s.drop_last()).insert(s.last().0@, s.last().1@).insert(kv.0@, kv.1@));
    }
}

pub proof fn lemma_kv_view_push(s: Seq<(String, PayloadValue)>, kv: (String, PayloadValue))
    ensures
        kv_view(s.push(kv)) == kv_view(s).insert(kv.0@, kv.1@),
{
    assert(s.push(kv).drop_last() =~= s);
    assert(s.push(kv).last() == kv);
}

pub proof fn lemma_kv_view_remove(s: Seq<(String, PayloadValue)>, i: int)
    requires
        keys_unique(s),
        0 <= i < s.len(),
    ensures
        kv_view(s.remove(i)) == kv_view(s).remove(s[i].0@),
    decreases s.len(),
{
    if i == s.len() - 1 {
        assert(s.remove(i) =~= s.drop_last());
        lemma_kv_view_contains(s.drop_last(), s[i].0@);
        assert(forall|j: int| 0 <= j < s.len() - 1 ==> s.drop_last()[j] == s[j]);
        assert(!kv_view(s.drop_last()).contains_key(s[i].0@));
        assert(kv_view(s.drop_last()).insert(s[i].0@, s[i].1@).remove(s[i].0@) =~= kv_view(
            s.drop_last(),
        ));
    } else {
        lemma_kv_view_remove(s.drop_last(), i);
        assert(s.drop_last()[i] == s[i]);
        assert(s.remove(i).drop_last() =~= s.drop_last().remove(i));
        assert(s.remove(i).last() == s.last());
        assert(s.last().0@ != s[i].0@);
        assert(kv_view(s.drop_last()).remove(s[i].0@).insert(s.last().0@, s.last().1@)
            =~= kv_view(s.drop_last()).insert(s.last().0@, s.last().1@).remove(s[i].0@));
    }
}

pub proof fn lemma_kv_view_congruence(s1: Seq<(String, PayloadValue)>, s2: Seq<(String, PayloadValue)>)
    requires
        s1.len() == s2.len(),
        forall|i: int| 0 <= i < s1.len() ==> s1[i].0@ == s2[i].0@ && s1[i].1@ == s2[i].1@,
    ensures
        kv_view(s1) == kv_view(s2),
    decreases s1.len(),
{
    if s1.len() > 0 {
        assert(forall|i: int|
            0 <= i < s1.len() - 1 ==> s1.drop_last()[i] == s1[i] && s2.drop_last()[i] == s2[i]);
        lemma_kv_view_congruence(s1.drop_last(), s2.drop_last());
        assert(s1.last() == s1[s1.len() - 1]);
        assert(s2.last() == s2[s1.len() - 1]);
    }
}

/// A payload: a mapping from field names to values, attached to one point.
pub struct Payload {
    pub fields: Vec<(String, PayloadValue)>,
}

impl View for Payload {
    type V = Map<Seq<char>, ValueV>;

    open spec fn view(&self) -> Map<Seq<char>, ValueV> {
        kv_view(self.fields@)
    }
}

impl Payload {
    /// Internal invariant: field names are unique.
    pub open spec fn wf(&self) -> bool {
        keys_unique(self.fields@)
    }

    /// An empty payload.
    pub fn new() -> (r: Payload)
        ensures
            r@ == Map::<Seq<char>, ValueV>::empty(),
            r.wf(),
    {
        Payload { fields: Vec::new() }
    }

    /// Looks a field up by name.
    pub fn get(&self, key: &String) -> (r: Option<&PayloadValue>)
        requires
            self.wf(),
        ensures
            match r {
                Some(v) => self@.contains_key(key@) && v@ == self@[key@],
                None => !self@.contains_key(key@),
            },
    {
        let mut i: usize = 0;
        while i < self.fields.len()
            invariant
                self.wf(),
                i <= self.fields@.len(),
                forall|k: int| 0 <= k < i as int ==> self.fields@[k].0@ != key@,
            decreases self.fields@.len() - i as int,
        {
            if self.fields[i].0 == *key {
                proof {
                    lemma_kv_view_index(self.fields@, i as int);
                }
                return Some(&self.fields[i].1);
            }
            i = i + 1;
        }
        proof {
            lemma_kv_view_contains(self.fields@, key@);
        }
        None
    }

    /// Sets a field, replacing an existing value for the same name.
    pub fn set(&mut self, key: String, value: PayloadValue)
        requires
            old(self).wf(),
        ensures
            final(self).wf(),
            final(self)@ == old(self)@.insert(key@, value@),
    {
        let mut i: usize = 0;
        let n = self.fields.len();
        while i < n
            invariant
                self.wf(),
                *self == *old(self),
                n == self.fields@.len(),
                i <= n,
                forall|k: int| 0 <= k < i as int ==> self.fields@[k].0@ != key@,
            decreases n - i,
        {
            if self.fields[i].0 == key {
                proof {
                    assert(self.fields@[i as int].0@ == key@);
                    lemma_kv_view_update(self.fields@, i as int, (key, value));
                }
                self.fields.set(i, (key, value));
                proof {
                    assert(forall|a: int, b: int|
                        0 <= a < b < self.fields@.len() ==> self.fields@[a].0@
                            != self.fields@[b].0@);
                }
                return ;
            }
            i = i + 1;
        }
        proof {
            lemma_kv_view_push(self.fields@, (key, value));
        }
        self.fields.push((key, value));
        proof {
            assert(forall|a: int, b: int|
                0 <= a < b < self.fields@.len() ==> self.fields@[a].0@ != self.fields@[b].0@);
        }
    }

    /// Removes a field by name; absent names are left alone.
    pub fn remove_key(&mut self, key: &String)
        requires
            old(self).wf(),
        ensures
            final(self).wf(),
            final(self)@ == old(self)@.remove(key@),
    {
        let mut i: usize = 0;
        let n = self.fields.len();
        while i < n
            invariant
                self.wf(),
                *self == *old(self),
                n == self.fields@.len(),
                i <= n,
                forall|k: int| 0 <= k < i as int ==> self.fields@[k].0@ != key@,
            decreases n - i,
        {
            if self.fields[i].0 == *key {
                proof {
                    lemma_kv_view_remove(self.fields@, i as int);
                    assert(forall|a: int, b: int|
                        0 <= a < b < self.fields@.len() - 1
                            ==> self.fields@.remove(i as int)[a].0@
                            != self.fields@.remove(i as int)[b].0@);
                }
                self.fields.remove(i);
                return ;
            }
            i = i + 1;
        }
        proof {
            lemma_kv_view_contains(self.fields@, key@);
            assert(old(self)@.remove(key@) =~= old(self)@);
        }
    }
}

/// Clones a payload; the copy has the same view and well-formedness.
pub fn clone_payload(p: &Payload) -> (r: Payload)
    ensures
        r@ == p@,
        p.wf() ==> r.wf(),
{
    let mut fields: Vec<(String, PayloadValue)> = Vec::new();
    let mut i: usize = 0;
    while i < p.fields.len()
        invariant
            i <= p.fields@.len(),
            fields@.len() == i as int,
            forall|k: int|
                0 <= k < i as int ==> fields@[k].0@ == p.fields@[k].0@ && fields@[k].1@
                    == p.fields@[k].1@,
        decreases p.fields@.len() - i as int,
    {
        let key = p.fields[i].0.clone();
        let value = clone_value(&p.fields[i].1);
        fields.push((key, value));
        i = i + 1;
    }
    proof {
        lemma_kv_view_congruence(fields@, p.fields@);
        if keys_unique(p.fields@) {
            assert forall|a: int, b: int|
                0 <= a < b < fields@.len() implies fields@[a].0@ != fields@[b].0@ by {
                assert(fields@[a].0@ == p.fields@[a].0@);
                assert(fields@[b].0@ == p.fields@[b].0@);
            }
        }
    }
    Payload { fields }
}

/// Compares two scalar values; equality of the views.
pub fn scalar_equal(a: &ScalarValue, b: &ScalarValue) -> (r: bool)
    ensures
        r == (a@ == b@),
{
    match a {
        ScalarValue::Bool(x) => match b {
            ScalarValue::Bool(y) => *x == *y,
            ScalarValue::Int(_) => false,
            ScalarValue::Keyword(_) => false,
        },
        ScalarValue::Int(x) => match b {
            ScalarValue::Int(y) => *x == *y,
            ScalarValue::Bool(_) => false,
            ScalarValue::Keyword(_) => false,
        },
        ScalarValue::Keyword(x) => match b {
            ScalarValue::Keyword(y) => *x == *y,
            ScalarValue::Bool(_) => false,
            ScalarValue::Int(_) => false,
        },
    }
}

/// Errors of one segment-level operation.
#[derive(Debug)]
pub enum OperationError {
    /// Malformed input (wrong vector dimension, malformed filter); the
    /// operation is rejected before any mutation.
    ValidationError { description: String },
    /// Segment-level failure to apply a mutation or finish a rebuild.
    ServiceError { description: String },
}

pub type OperationResult<T> = Result<T, OperationError>;

/// Errors surfaced at the storage boundary.
#[derive(Debug)]
pub enum StorageError {
    /// Malformed input, mapped from a validation error below.
    BadInput { description: String },
    /// A collection or point does not exist.
    NotFound { description: String },
    /// A lower-level failure.
    ServiceError { description: String },
}

impl StorageError {
    /// Maps a segment-level error to its storage-level counterpart.
    pub fn from_operation(e: OperationError) -> (r: StorageError)
        ensures
            (e is ValidationError <==> r is BadInput),
            (e is ServiceError <==> r is ServiceError),
    {
        match e {
            OperationError::ValidationError { description } => StorageError::BadInput {
                description,
            },
            OperationError::ServiceError { description } => StorageError::ServiceError {
                description,
            },
        }
    }
}

} // verus!
