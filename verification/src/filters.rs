//! Boolean filters over payload fields: equality, range and geo-bounding
//! conditions under `must` / `should` / `must_not` combinators, with their
//! mathematical semantics and a verified evaluator.

use crate::types::{scalar_equal, scalar_views, GeoPoint, Payload, PayloadValue, ScalarValue, ValueV};
use vstd::prelude::*;

verus! {

/// Numeric range condition on an integer payload field.
#[derive(Clone, Copy)]
pub struct RangeCondition {
    pub gt: Option<i64>,
    pub gte: Option<i64>,
    pub lt: Option<i64>,
    pub lte: Option<i64>,
}

/// Axis-aligned geographic box; `top_left` is the north-west corner.
#[derive(Clone, Copy)]
pub struct GeoBoundingBox {
    pub top_left: GeoPoint,
    pub bottom_right: GeoPoint,
}

/// One condition on one payload field. At least one of the optional
/// constraints must be present for the condition to be well formed.
pub struct FieldCondition {
    pub key: String,
    pub match_value: Option<ScalarValue>,
    pub range: Option<RangeCondition>,
    pub geo_bounding_box: Option<GeoBoundingBox>,
}

/// A boolean filter over payload fields.
///
/// A payload matches when every `must` condition holds, no `must_not`
/// condition holds, and, if `should` is non-empty, at least one `should`
/// condition holds. A missing field never matches a condition.
pub struct Filter {
    pub must: Vec<FieldCondition>,
    pub should: Vec<FieldCondition>,
    pub must_not: Vec<FieldCondition>,
}

pub open spec fn value_in_range(v: ValueV, rc: RangeCondition) -> bool {
    match v {
        ValueV::Int(x) => {
            &&& (rc.gt matches Some(b) ==> x > b as int)
            &&& (rc.gte matches Some(b) ==> x >= b as int)
            &&& (rc.lt matches Some(b) ==> x < b as int)
            &&& (rc.lte matches Some(b) ==> x <= b as int)
        },
        _ => false,
    }
}

pub open spec fn value_in_geo_box(v: ValueV, bb: GeoBoundingBox) -> bool {
    match v {
        ValueV::Geo { lon, lat } => {
            &&& bb.top_left.lon as int <= lon
            &&& lon <= bb.bottom_right.lon as int
            &&& bb.bottom_right.lat as int <= lat
            &&& lat <= bb.top_left.lat as int
        },
        _ => false,
    }
}

/// The elements of a list value; empty for any other value.
pub open spec fn list_elems(v: ValueV) -> Seq<ValueV> {
    match v {
        ValueV::List(xs) => xs,
        _ => Seq::empty(),
    }
}

/// A stored value matches a target scalar when it equals it, or when it is
/// a list and some element equals it.
pub open spec fn value_matches(v: ValueV, target: ValueV) -> bool {
    v == target || (v is List && exists|i: int|
        0 <= i && i < list_elems(v).len() && (#[trigger] list_elems(v)[i]) == target)
}

pub open spec fn cond_matches(c: FieldCondition, p: Map<Seq<char>, ValueV>) -> bool {
    &&& p.contains_key(c.key@)
    &&& (c.match_value matches Some(t) ==> value_matches(p[c.key@], t@))
    &&& (c.range matches Some(rc) ==> value_in_range(p[c.key@], rc))
    &&& (c.geo_bounding_box matches Some(bb) ==> value_in_geo_box(p[c.key@], bb))
}

pub open spec fn filter_matches(f: Filter, p: Map<Seq<char>, ValueV>) -> bool {
    &&& (forall|i: int| 0 <= i < f.must@.len() ==> cond_matches(#[trigger] f.must@[i], p))
    &&& (forall|i: int| 0 <= i < f.must_not@.len() ==> !cond_matches(#[trigger] f.must_not@[i], p))
    &&& (f.should@.len() > 0 ==> exists|i: int|
        0 <= i < f.should@.len() && cond_matches(#[trigger] f.should@[i], p))
}

pub open spec fn geo_box_wf(bb: GeoBoundingBox) -> bool {
    bb.top_left.lon <= bb.bottom_right.lon && bb.bottom_right.lat <= bb.top_left.lat
}

pub open spec fn cond_wf(c: FieldCondition) -> bool {
    &&& (c.match_value is Some || c.range is Some || c.geo_bounding_box is Some)
    &&& (c.geo_bounding_box matches Some(bb) ==> geo_box_wf(bb))
}

/// A filter is well formed when every condition constrains something and
/// every geo box has its corners in order. A malformed filter is rejected
/// before any search runs.
pub open spec fn filter_wf(f: Filter) -> bool {
    &&& (forall|i: int| 0 <= i < f.must@.len() ==> cond_wf(#[trigger] f.must@[i]))
    &&& (forall|i: int| 0 <= i < f.must_not@.len() ==> cond_wf(#[trigger] f.must_not@[i]))
    &&& (forall|i: int| 0 <= i < f.should@.len() ==> cond_wf(#[trigger] f.should@[i]))
}

proof fn lemma_value_matches_list(vs: Seq<ValueV>, target: ValueV, i: int)
    requires
        0 <= i,
        i < vs.len(),
        vs[i] == target,
    ensures
        value_matches(ValueV::List(vs), target),
{
    let v = ValueV::List(vs);
    assert(list_elems(v) == vs);
    assert(0 <= i && i < list_elems(v).len() && list_elems(v)[i] == target);
}

fn value_matches_exec(v: &PayloadValue, target: &ScalarValue) -> (r: bool)
    ensures
        r == value_matches(v@, target@),
{
    match v {
        PayloadValue::Scalar(s) => scalar_equal(s, target),
        PayloadValue::List(xs) => {
            let mut i: usize = 0;
            while i < xs.len()
                invariant
                    i <= xs.len(),
                    v@ == ValueV::List(scalar_views(xs@)),
                    forall|k: int| 0 <= k < i as int ==> xs@[k]@ != target@,
                decreases xs.len() - i,
            {
                if scalar_equal(&xs[i], target) {
                    proof {
                        let vs = scalar_views(xs@);
                        assert(vs[i as int] == target@);
                        lemma_value_matches_list(vs, target@, i as int);
                        assert(v@ == ValueV::List(vs));
                    }
                    return true;
                }
                i = i + 1;
            }
            proof {
                let vs = scalar_views(xs@);
                assert(v@ == ValueV::List(vs));
                assert(forall|k: int| 0 <= k < vs.len() ==> vs[k] == xs@[k]@);
            }
            false
        },
        PayloadValue::Geo(_) => false,
    }
}

fn range_check(v: &PayloadValue, rc: &RangeCondition) -> (r: bool)
    ensures
        r == value_in_range(v@, *rc),
{
    match v {
        PayloadValue::Scalar(s) => match s {
            ScalarValue::Int(x) => {
                let ok_gt = match rc.gt {
                    Some(b) => *x > b,
                    None => true,
                };
                let ok_gte = match rc.gte {
                    Some(b) => *x >= b,
                    None => true,
                };
                let ok_lt = match rc.lt {
                    Some(b) => *x < b,
                    None => true,
                };
                let ok_lte = match rc.lte {
                    Some(b) => *x <= b,
                    None => true,
                };
                ok_gt && ok_gte && ok_lt && ok_lte
            },
            _ => false,
        },
        _ => false,
    }
}

fn geo_check(v: &PayloadValue, bb: &GeoBoundingBox) -> (r: bool)
    ensures
        r == value_in_geo_box(v@, *bb),
{
    match v {
        PayloadValue::Geo(g) => {
            bb.top_left.lon <= g.lon && g.lon <= bb.bottom_right.lon && bb.bottom_right.lat
                <= g.lat && g.lat <= bb.top_left.lat
        },
        _ => false,
    }
}

/// Evaluates one field condition against one payload.
pub fn check_condition(c: &FieldCondition, payload: &Payload) -> (r: bool)
    requires
        payload.wf(),
    ensures
        r == cond_matches(*c, payload@),
{
    match payload.get(&c.key) {
        None => false,
        Some(v) => {
            let ok_match = match &c.match_value {
                Some(t) => value_matches_exec(v, t),
                None => true,
            };
            let ok_range = match &c.range {
                Some(rc) => range_check(v, rc),
                None => true,
            };
            let ok_geo = match &c.geo_bounding_box {
                Some(bb) => geo_check(v, bb),
                None => true,
            };
            ok_match && ok_range && ok_geo
        },
    }
}

/// Evaluates a whole filter against one payload. Pure: the decision is a
/// function of the payload alone.
pub fn check_filter(f: &Filter, payload: &Payload) -> (r: bool)
    requires
        payload.wf(),
    ensures
        r == filter_matches(*f, payload@),
{
    let mut i: usize = 0;
    while i < f.must.len()
        invariant
            payload.wf(),
            i <= f.must@.len(),
            forall|k: int| 0 <= k < i as int ==> cond_matches(#[trigger] f.must@[k], payload@),
        decreases f.must@.len() - i as int,
    {
        if !check_condition(&f.must[i], payload) {
            return false;
        }
        i = i + 1;
    }
    let mut j: usize = 0;
    while j < f.must_not.len()
        invariant
            payload.wf(),
            j <= f.must_not@.len(),
            forall|k: int| 0 <= k < j as int ==> !cond_matches(#[trigger] f.must_not@[k], payload@),
        decreases f.must_not@.len() - j as int,
    {
        if check_condition(&f.must_not[j], payload) {
            return false;
        }
        j = j + 1;
    }
    if f.should.len() == 0 {
        return true;
    }
    let mut k: usize = 0;
    while k < f.should.len()
        invariant
            payload.wf(),
            k <= f.should@.len(),
            forall|m: int| 0 <= m < k as int ==> !cond_matches(#[trigger] f.should@[m], payload@),
            forall|m: int| 0 <= m < f.must@.len() ==> cond_matches(#[trigger] f.must@[m], payload@),
            forall|m: int|
                0 <= m < f.must_not@.len() ==> !cond_matches(#[trigger] f.must_not@[m], payload@),
        decreases f.should@.len() - k as int,
    {
        if check_condition(&f.should[k], payload) {
            return true;
        }
        k = k + 1;
    }
    false
}

fn validate_conditions(list: &Vec<FieldCondition>) -> (r: bool)
    ensures
        r == (forall|i: int| 0 <= i < list@.len() ==> cond_wf(#[trigger] list@[i])),
{
    let mut i: usize = 0;
    while i < list.len()
        invariant
            i <= list@.len(),
            forall|k: int| 0 <= k < i as int ==> cond_wf(#[trigger] list@[k]),
        decreases list@.len() - i as int,
    {
        let c = &list[i];
        let has_constraint = c.match_value.is_some() || c.range.is_some()
            || c.geo_bounding_box.is_some();
        let geo_ok = match &c.geo_bounding_box {
            Some(bb) => bb.top_left.lon <= bb.bottom_right.lon && bb.bottom_right.lat
                <= bb.top_left.lat,
            None => true,
        };
        if !(has_constraint && geo_ok) {
            return false;
        }
        i = i + 1;
    }
    true
}

/// Checks that a filter is well formed; search rejects a filter for which
/// this returns false with a validation error.
pub fn validate_filter(f: &Filter) -> (r: bool)
    ensures
        r == filter_wf(*f),
{
    let must_ok = validate_conditions(&f.must);
    let must_not_ok = validate_conditions(&f.must_not);
    let should_ok = validate_conditions(&f.should);
    must_ok && must_not_ok && should_ok
}

} // verus!
