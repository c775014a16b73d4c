//! The merge rule for answers gathered across segments: deduplicate by
//! point id keeping the highest score, then resort and truncate to `top`.

use crate::types::{PointIdType, ScoreType};
use vstd::prelude::*;

verus! {

/// A search result translated to an external point id.
#[derive(Clone, Copy, PartialEq, Eq, Structural, Debug)]
pub struct ScoredPoint {
    pub id: PointIdType,
    pub score: ScoreType,
}

/// Strict merged-result order: higher score first, ties by ascending id.
pub open spec fn sp_before(a: ScoredPoint, b: ScoredPoint) -> bool {
    a.score > b.score || (a.score == b.score && a.id < b.id)
}

pub open spec fn sp_sorted(s: Seq<ScoredPoint>) -> bool {
    forall|i: int, j: int| 0 <= i < j < s.len() ==> sp_before(s[i], s[j])
}

pub open spec fn has_id(s: Seq<ScoredPoint>, id: PointIdType) -> bool {
    exists|k: int| 0 <= k < s.len() && (#[trigger] s[k]).id == id
}

pub open spec fn sp_all_before(s: Seq<ScoredPoint>, x: ScoredPoint) -> bool {
    forall|k: int| 0 <= k < s.len() ==> sp_before(#[trigger] s[k], x)
}

/// `x` occurs in `s` and no occurrence of its id scores higher.
pub open spec fn is_best_of(s: Seq<ScoredPoint>, x: ScoredPoint) -> bool {
    s.contains(x) && (forall|k: int|
        0 <= k < s.len() && (#[trigger] s[k]).id == x.id ==> s[k].score <= x.score)
}

/// The index in `r` carrying `id`, if any.
fn find_id(r: &Vec<ScoredPoint>, id: PointIdType) -> (res: Option<usize>)
    ensures
        match res {
            Some(p) => (p as int) < r@.len() && r@[p as int].id == id,
            None => forall|k: int| 0 <= k < r@.len() ==> (#[trigger] r@[k]).id != id,
        },
{
    let mut p: usize = 0;
    while p < r.len()
        invariant
            p <= r@.len(),
            forall|k: int| 0 <= k < p as int ==> (#[trigger] r@[k]).id != id,
        decreases r@.len() - p as int,
    {
        if r[p].id == id {
            return Some(p);
        }
        p = p + 1;
    }
    None
}

/// Inserts a candidate whose id is fresh into a sorted buffer of at most
/// `top` elements; mirrors the per-segment top-k buffer.
fn sp_insert(res: &mut Vec<ScoredPoint>, c: ScoredPoint, top: usize)
    requires
        sp_sorted(old(res)@),
        old(res)@.len() <= top,
        forall|k: int| 0 <= k < old(res)@.len() ==> (#[trigger] old(res)@[k]).id != c.id,
    ensures
        sp_sorted(final (res)@),
        final (res)@.len() == (if old(res)@.len() < top {
            old(res)@.len() + 1
        } else {
            top as nat
        }),
        forall|x: ScoredPoint| #[trigger]
            final (res)@.contains(x) ==> old(res)@.contains(x) || x == c,
        old(res)@.len() < top ==> final (res)@.contains(c) && (forall|x: ScoredPoint|
            #[trigger] old(res)@.contains(x) ==> final (res)@.contains(x)),
        forall|x: ScoredPoint|
            (old(res)@.contains(x) || x == c) && !final (res)@.contains(x)
                ==> #[trigger] sp_all_before(final (res)@, x),
        forall|x: ScoredPoint| #[trigger]
            sp_all_before(old(res)@, x) && old(res)@.len() == top ==> sp_all_before(
                final (res)@,
                x,
            ),
{
    let ghost s0 = res@;
    if top == 0 {
        proof {
            assert(s0.len() == 0);
            assert forall|x: ScoredPoint|
                (s0.contains(x) || x == c) && !res@.contains(x) implies sp_all_before(
                res@,
                x,
            ) by {
                assert(res@.len() == 0);
            }
        }
        return ;
    }
    let mut pos: usize = 0;
    while pos < res.len()
        invariant
            res@ == s0,
            pos <= s0.len(),
            forall|k: int| 0 <= k < pos as int ==> !sp_before(c, s0[k]),
        ensures
            res@ == s0,
            pos <= s0.len(),
            forall|k: int| 0 <= k < pos as int ==> !sp_before(c, s0[k]),
            pos < s0.len() ==> sp_before(c, s0[pos as int]),
        decreases s0.len() - pos as int,
    {
        if c.score > res[pos].score || (c.score == res[pos].score && c.id < res[pos].id) {
            break ;
        }
        pos = pos + 1;
    }
    res.insert(pos, c);
    let ghost s1 = res@;
    proof {
        assert(forall|k: int| 0 <= k < pos as int ==> s1[k] == s0[k]);
        assert(s1[pos as int] == c);
        assert(forall|k: int| (pos as int) < k < s1.len() ==> s1[k] == s0[k - 1]);
        assert(forall|k: int| 0 <= k < pos as int ==> sp_before(#[trigger] s0[k], c));
        assert forall|i: int, j: int| 0 <= i < j < s1.len() implies sp_before(s1[i], s1[j]) by {
            if j < pos as int {
                assert(s1[i] == s0[i] && s1[j] == s0[j]);
            } else if i < pos as int && j == pos as int {
                assert(s1[i] == s0[i] && s1[j] == c);
            } else if i < pos as int && j > pos as int {
                assert(s1[i] == s0[i] && s1[j] == s0[j - 1]);
            } else if i == pos as int {
                assert(s1[i] == c && s1[j] == s0[j - 1]);
                assert(sp_before(c, s0[pos as int]));
                if j - 1 > pos as int {
                    assert(sp_before(s0[pos as int], s0[j - 1]));
                }
            } else {
                assert(s1[i] == s0[i - 1] && s1[j] == s0[j - 1]);
            }
        }
        assert(sp_sorted(s1));
    }
    if res.len() > top {
        let _ = res.pop();
    }
    proof {
        let s2 = res@;
        let dropped = s1.len() > top;
        if dropped {
            assert(s0.len() == top);
            assert(s2 =~= s1.drop_last());
        } else {
            assert(s2 == s1);
        }
        assert(sp_sorted(s2));
        assert forall|x: ScoredPoint| #[trigger]
            s2.contains(x) implies s0.contains(x) || x == c by {
            let k = choose|k: int| 0 <= k < s2.len() && s2[k] == x;
            assert(s2[k] == s1[k]);
            if k < pos as int {
                assert(s0[k] == x);
                assert(s0.contains(x));
            } else if k > pos as int {
                assert(s0[k - 1] == x);
                assert(s0.contains(x));
            }
        }
        if s0.len() < top {
            assert(!dropped);
            assert(s2.contains(c)) by {
                assert(s2[pos as int] == c);
            }
            assert forall|x: ScoredPoint| #[trigger]
                s0.contains(x) implies s2.contains(x) by {
                let k = choose|k: int| 0 <= k < s0.len() && s0[k] == x;
                if k < pos as int {
                    assert(s2[k] == x);
                } else {
                    assert(s2[k + 1] == x);
                }
            }
        }
        assert forall|x: ScoredPoint|
            (s0.contains(x) || x == c) && !s2.contains(x) implies sp_all_before(s2, x) by {
            assert(dropped) by {
                if !dropped {
                    if x == c {
                        assert(s2[pos as int] == c);
                        assert(s2.contains(x));
                    } else {
                        let k = choose|k: int| 0 <= k < s0.len() && s0[k] == x;
                        if k < pos as int {
                            assert(s2[k] == x);
                        } else {
                            assert(s2[k + 1] == x);
                        }
                        assert(s2.contains(x));
                    }
                }
            }
            assert(x == s1[s1.len() - 1]) by {
                if x == c {
                    if (pos as int) < s1.len() - 1 {
                        assert(s2[pos as int] == c);
                        assert(s2.contains(x));
                    }
                } else {
                    let k = choose|k: int| 0 <= k < s0.len() && s0[k] == x;
                    if k < pos as int {
                        assert(s2[k] == x);
                        assert(s2.contains(x));
                    } else if k + 1 < s1.len() - 1 {
                        assert(s2[k + 1] == x);
                        assert(s2.contains(x));
                    } else if k + 1 == s1.len() - 1 {
                        assert(x == s1[s1.len() - 1]);
                    }
                }
            }
            assert forall|k: int| 0 <= k < s2.len() implies sp_before(#[trigger] s2[k], x) by {
                assert(s2[k] == s1[k]);
                assert(sp_before(s1[k], s1[s1.len() - 1]));
            }
        }
        assert forall|x: ScoredPoint| #[trigger]
            sp_all_before(s0, x) && s0.len() == top implies sp_all_before(s2, x) by {
            assert forall|k: int| 0 <= k < s2.len() implies sp_before(#[trigger] s2[k], x) by {
                assert(s2[k] == s1[k]);
                if k < pos as int {
                    assert(s1[k] == s0[k]);
                } else if k > pos as int {
                    assert(s1[k] == s0[k - 1]);
                } else {
                    assert(pos < top);
                    assert(sp_before(c, s0[pos as int]));
                    assert(sp_before(s0[pos as int], x));
                }
            }
        }
    }
}

/// Merges candidates gathered across segments into one logical answer:
/// deduplicate by point id keeping the highest score, then resort and
/// truncate to `top`. The result is exactly the top `top` ids by their best
/// score: sorted, one entry per id at its highest score, nothing missing
/// while there is room, and every absent id beaten by everything kept.
pub fn merge_results(candidates: &Vec<ScoredPoint>, top: usize) -> (r: Vec<ScoredPoint>)
    ensures
        sp_sorted(r@),
        r@.len() <= top,
        forall|k1: int, k2: int| 0 <= k1 < k2 < r@.len() ==> r@[k1].id != r@[k2].id,
        forall|k: int| 0 <= k < r@.len() ==> is_best_of(candidates@, #[trigger] r@[k]),
        r@.len() < top ==> (forall|k: int|
            0 <= k < candidates@.len() ==> has_id(r@, (#[trigger] candidates@[k]).id)),
        forall|k: int|
            0 <= k < candidates@.len() && !has_id(r@, (#[trigger] candidates@[k]).id)
                ==> sp_all_before(r@, candidates@[k]),
{
    let mut res: Vec<ScoredPoint> = Vec::new();
    let mut i: usize = 0;
    while i < candidates.len()
        invariant
            i <= candidates@.len(),
            sp_sorted(res@),
            res@.len() <= top,
            forall|k1: int, k2: int| 0 <= k1 < k2 < res@.len() ==> res@[k1].id != res@[k2].id,
            forall|k: int|
                0 <= k < res@.len() ==> is_best_of(candidates@.take(i as int), #[trigger] res@[k]),
            res@.len() < top ==> (forall|k: int|
                0 <= k < i as int ==> has_id(res@, (#[trigger] candidates@[k]).id)),
            forall|k: int|
                0 <= k < i as int && !has_id(res@, (#[trigger] candidates@[k]).id)
                    ==> sp_all_before(res@, candidates@[k]),
        decreases candidates@.len() - i as int,
    {
        let c = candidates[i];
        let ghost pre = candidates@.take(i as int);
        let ghost pre1 = candidates@.take(i as int + 1);
        proof {
            assert(pre1.drop_last() =~= pre);
            assert(pre1.last() == c);
            assert(forall|k: int| 0 <= k < pre.len() ==> pre1[k] == pre[k]);
            assert(pre1[i as int] == c);
        }
        match find_id(&res, c.id) {
            Some(p) => {
                if c.score > res[p].score {
                    let ghost s0 = res@;
                    let ghost d = res@[p as int];
                    res.remove(p);
                    let ghost s1 = res@;
                    proof {
                        assert(forall|k: int| 0 <= k < p as int ==> s1[k] == s0[k]);
                        assert(forall|k: int| p as int <= k < s1.len() ==> s1[k] == s0[k + 1]);
                        assert(sp_sorted(s1));
                        assert(forall|k1: int, k2: int|
                            0 <= k1 < k2 < s1.len() ==> s1[k1].id != s1[k2].id);
                        assert forall|k: int| 0 <= k < s1.len() implies (#[trigger] s1[k]).id
                            != c.id by {
                            if k < p as int {
                                assert(s1[k] == s0[k] && s0[k].id != s0[p as int].id);
                            } else {
                                assert(s1[k] == s0[k + 1] && s0[k + 1].id != s0[p as int].id);
                            }
                        }
                        assert forall|x: ScoredPoint| #[trigger]
                            s1.contains(x) implies s0.contains(x) by {
                            let k = choose|k: int| 0 <= k < s1.len() && s1[k] == x;
                            if k < p as int {
                                assert(s0[k] == x);
                            } else {
                                assert(s0[k + 1] == x);
                            }
                        }
                        assert forall|x: ScoredPoint| #[trigger]
                            s0.contains(x) && x != d implies s1.contains(x) by {
                            let k = choose|k: int| 0 <= k < s0.len() && s0[k] == x;
                            assert(k != p as int);
                            if k < p as int {
                                assert(s1[k] == x);
                            } else {
                                assert(s1[k - 1] == x);
                            }
                        }
                    }
                    sp_insert(&mut res, c, top);
                    proof {
                        let s2 = res@;
                        assert(s1.len() < top);
                        assert(s2.contains(c));
                        // every result element is still a best occurrence
                        assert forall|k: int| 0 <= k < s2.len() implies is_best_of(
                            pre1,
                            #[trigger] s2[k],
                        ) by {
                            let x = s2[k];
                            assert(s2.contains(x));
                            if x == c {
                                assert(pre1.contains(c)) by {
                                    assert(pre1[i as int] == c);
                                }
                                assert forall|m: int|
                                    0 <= m < pre1.len() && (#[trigger] pre1[m]).id == c.id
                                    implies pre1[m].score <= c.score by {
                                    if m < i as int {
                                        assert(pre1[m] == pre[m]);
                                        assert(is_best_of(pre, d));
                                        assert(pre[m].score <= d.score);
                                    }
                                }
                            } else {
                                assert(s1.contains(x));
                                assert(s0.contains(x));
                                assert(is_best_of(pre, x));
                                let k0 = choose|k0: int| 0 <= k0 < pre.len() && pre[k0] == x;
                                assert(pre1[k0] == x);
                                assert(pre1.contains(x));
                                assert(x.id != c.id);
                                assert forall|m: int|
                                    0 <= m < pre1.len() && (#[trigger] pre1[m]).id == x.id
                                    implies pre1[m].score <= x.score by {
                                    assert(m < i as int);
                                    assert(pre1[m] == pre[m]);
                                }
                            }
                        }
                        // distinct ids
                        assert forall|k1: int, k2: int|
                            0 <= k1 < k2 < s2.len() implies s2[k1].id != s2[k2].id by {
                            assert(s2.contains(s2[k1]));
                            assert(s2.contains(s2[k2]));
                            assert(sp_before(s2[k1], s2[k2]));
                            assert(s2[k1] != s2[k2]);
                            if s2[k1] != c && s2[k2] != c {
                                let a1 = choose|a: int| 0 <= a < s1.len() && s1[a] == s2[k1];
                                let a2 = choose|a: int| 0 <= a < s1.len() && s1[a] == s2[k2];
                                assert(a1 != a2);
                            }
                        }
                        // completeness: the removed id is back as c
                        if s2.len() < top {
                            assert forall|k: int| 0 <= k < i as int + 1 implies has_id(
                                s2,
                                (#[trigger] candidates@[k]).id,
                            ) by {
                                let cid = candidates@[k].id;
                                if cid == c.id {
                                    let kc = choose|kc: int| 0 <= kc < s2.len() && s2[kc] == c;
                                    assert(s2[kc].id == cid);
                                } else {
                                    assert(k < i as int);
                                    assert(has_id(s0, cid));
                                    let a = choose|a: int| 0 <= a < s0.len() && s0[a].id == cid;
                                    assert(s0[a] != d);
                                    assert(s0.contains(s0[a]));
                                    assert(s1.contains(s0[a]));
                                    assert(s2.contains(s0[a]));
                                    let b = choose|b: int| 0 <= b < s2.len() && s2[b] == s0[a];
                                    assert(s2[b].id == cid);
                                }
                            }
                        }
                        // dominance for ids absent from the result
                        assert forall|k: int|
                            0 <= k < i as int + 1 && !has_id(s2, (#[trigger] candidates@[k]).id)
                            implies sp_all_before(s2, candidates@[k]) by {
                            let y = candidates@[k];
                            assert(y.id != c.id) by {
                                let kc = choose|kc: int| 0 <= kc < s2.len() && s2[kc] == c;
                                if y.id == c.id {
                                    assert(s2[kc].id == y.id);
                                }
                            }
                            assert(k < i as int);
                            assert(!has_id(s0, y.id)) by {
                                if has_id(s0, y.id) {
                                    let a = choose|a: int| 0 <= a < s0.len() && s0[a].id == y.id;
                                    assert(s0[a] != d);
                                    assert(s0.contains(s0[a]));
                                    assert(s1.contains(s0[a]));
                                    assert(s2.contains(s0[a]));
                                    let b = choose|b: int| 0 <= b < s2.len() && s2[b] == s0[a];
                                    assert(s2[b].id == y.id);
                                }
                            }
                            assert(sp_all_before(s0, y));
                            assert forall|m: int| 0 <= m < s2.len() implies sp_before(
                                #[trigger] s2[m],
                                y,
                            ) by {
                                let x = s2[m];
                                assert(s2.contains(x));
                                if x == c {
                                    assert(sp_before(d, y));
                                    assert(c.score > d.score);
                                } else {
                                    assert(s1.contains(x));
                                    assert(s0.contains(x));
                                    let a = choose|a: int| 0 <= a < s0.len() && s0[a] == x;
                                    assert(sp_before(s0[a], y));
                                }
                            }
                        }
                    }
                } else {
                    proof {
                        // the kept occurrence still beats the new one
                        assert forall|k: int| 0 <= k < res@.len() implies is_best_of(
                            pre1,
                            #[trigger] res@[k],
                        ) by {
                            let x = res@[k];
                            assert(is_best_of(pre, x));
                            let k0 = choose|k0: int| 0 <= k0 < pre.len() && pre[k0] == x;
                            assert(pre1[k0] == x);
                            assert(pre1.contains(x));
                            assert forall|m: int|
                                0 <= m < pre1.len() && (#[trigger] pre1[m]).id == x.id
                                implies pre1[m].score <= x.score by {
                                if m == i as int {
                                    assert(pre1[m] == c);
                                    if x.id == c.id {
                                        assert(x == res@[p as int]);
                                    }
                                } else {
                                    assert(pre1[m] == pre[m]);
                                }
                            }
                        }
                        assert forall|k: int| 0 <= k < i as int + 1 && res@.len() < top
                            implies has_id(res@, (#[trigger] candidates@[k]).id) by {
                            if k == i as int {
                                assert(res@[p as int].id == c.id);
                            }
                        }
                        assert forall|k: int|
                            0 <= k < i as int + 1 && !has_id(res@, (#[trigger] candidates@[k]).id)
                            implies sp_all_before(res@, candidates@[k]) by {
                            if k == i as int {
                                assert(res@[p as int].id == c.id);
                                assert(has_id(res@, c.id));
                            }
                        }
                    }
                }
            },
            None => {
                let ghost s0 = res@;
                sp_insert(&mut res, c, top);
                proof {
                    let s2 = res@;
                    // distinct ids
                    assert forall|k1: int, k2: int|
                        0 <= k1 < k2 < s2.len() implies s2[k1].id != s2[k2].id by {
                        assert(s2.contains(s2[k1]));
                        assert(s2.contains(s2[k2]));
                        assert(sp_before(s2[k1], s2[k2]));
                        assert(s2[k1] != s2[k2]);
                        if s2[k1] != c && s2[k2] != c {
                            let a1 = choose|a: int| 0 <= a < s0.len() && s0[a] == s2[k1];
                            let a2 = choose|a: int| 0 <= a < s0.len() && s0[a] == s2[k2];
                            assert(a1 != a2);
                        }
                    }
                    // best-occurrence property
                    assert forall|k: int| 0 <= k < s2.len() implies is_best_of(
                        pre1,
                        #[trigger] s2[k],
                    ) by {
                        let x = s2[k];
                        assert(s2.contains(x));
                        if x == c {
                            assert(pre1.contains(c)) by {
                                assert(pre1[i as int] == c);
                            }
                            assert forall|m: int|
                                0 <= m < pre1.len() && (#[trigger] pre1[m]).id == c.id
                                implies pre1[m].score <= c.score by {
                                if m < i as int {
                                    let y = pre[m];
                                    assert(pre1[m] == y);
                                    // an earlier occurrence of a fresh id was
                                    // dropped while the buffer was full, so
                                    // everything kept then — and c now — beats it
                                    assert(!has_id(s0, y.id));
                                    assert(sp_all_before(s0, y));
                                    assert(s0.len() == top) by {
                                        if s0.len() < top {
                                            assert(has_id(s0, y.id));
                                        }
                                    }
                                    // c entered a full buffer, so some
                                    // element left; it beat y, and
                                    // everything kept — c included — beats it
                                    assert(s2.len() == top as int);
                                    lemma_some_element_left(s0, s2, c);
                                    let e = choose|e: int| 0 <= e < s0.len() && !s2.contains(
                                        #[trigger] s0[e],
                                    );
                                    assert(s0.contains(s0[e]));
                                    assert(sp_all_before(s2, s0[e]));
                                    assert(s2.contains(c));
                                    assert(sp_before(c, s0[e]));
                                    assert(sp_before(s0[e], y));
                                }
                            }
                        } else {
                            assert(s0.contains(x));
                            assert(is_best_of(pre, x));
                            let k0 = choose|k0: int| 0 <= k0 < pre.len() && pre[k0] == x;
                            assert(pre1[k0] == x);
                            assert(pre1.contains(x));
                            assert forall|m: int|
                                0 <= m < pre1.len() && (#[trigger] pre1[m]).id == x.id
                                implies pre1[m].score <= x.score by {
                                if m == i as int {
                                    assert(pre1[m] == c);
                                    let a = choose|a: int| 0 <= a < s0.len() && s0[a] == x;
                                    assert(s0[a].id != c.id);
                                } else {
                                    assert(pre1[m] == pre[m]);
                                }
                            }
                        }
                    }
                    // completeness
                    if s2.len() < top {
                        assert(s0.len() < top);
                        assert forall|k: int| 0 <= k < i as int + 1 implies has_id(
                            s2,
                            (#[trigger] candidates@[k]).id,
                        ) by {
                            let cid = candidates@[k].id;
                            if cid == c.id {
                                let kc = choose|kc: int| 0 <= kc < s2.len() && s2[kc] == c;
                                assert(s2[kc].id == cid);
                            } else {
                                assert(k < i as int);
                                assert(has_id(s0, cid));
                                let a = choose|a: int| 0 <= a < s0.len() && s0[a].id == cid;
                                assert(s0.contains(s0[a]));
                                assert(s2.contains(s0[a]));
                                let b = choose|b: int| 0 <= b < s2.len() && s2[b] == s0[a];
                                assert(s2[b].id == cid);
                            }
                        }
                    }
                    // dominance
                    assert forall|k: int|
                        0 <= k < i as int + 1 && !has_id(s2, (#[trigger] candidates@[k]).id)
                        implies sp_all_before(s2, candidates@[k]) by {
                        let y = candidates@[k];
                        if y.id == c.id {
                            // c itself was not kept
                            assert(!s2.contains(c)) by {
                                if s2.contains(c) {
                                    let kc = choose|kc: int| 0 <= kc < s2.len() && s2[kc] == c;
                                    assert(s2[kc].id == y.id);
                                }
                            }
                            assert(sp_all_before(s2, c));
                            if k == i as int {
                            } else {
                                // an earlier occurrence: dominated before, and
                                // the buffer was and stays full
                                assert(pre1[k] == pre[k]);
                                assert(!has_id(s0, y.id)) by {
                                    if has_id(s0, y.id) {
                                        let a = choose|a: int|
                                            0 <= a < s0.len() && s0[a].id == y.id;
                                        assert(s0[a].id != c.id);
                                    }
                                }
                                assert(sp_all_before(s0, y));
                                assert(s0.len() == top) by {
                                    if s0.len() < top {
                                        assert(has_id(s0, y.id));
                                    }
                                }
                                assert(sp_all_before(s2, y));
                            }
                        } else {
                            assert(k < i as int);
                            if has_id(s0, y.id) {
                                // the buffer held a better entry for this id,
                                // which must have been evicted; everything
                                // kept beats it, and it beats y
                                let a = choose|a: int| 0 <= a < s0.len() && s0[a].id == y.id;
                                assert(s0.contains(s0[a]));
                                assert(!s2.contains(s0[a])) by {
                                    if s2.contains(s0[a]) {
                                        let b = choose|b: int|
                                            0 <= b < s2.len() && s2[b] == s0[a];
                                        assert(s2[b].id == y.id);
                                    }
                                }
                                assert(sp_all_before(s2, s0[a]));
                                assert(is_best_of(pre, s0[a]));
                                assert(pre[k] == y);
                                assert(y.score <= s0[a].score);
                                assert forall|m: int| 0 <= m < s2.len() implies sp_before(
                                    #[trigger] s2[m],
                                    y,
                                ) by {
                                    assert(sp_before(s2[m], s0[a]));
                                }
                            } else {
                                assert(sp_all_before(s0, y));
                                assert(s0.len() == top) by {
                                    if s0.len() < top {
                                        assert(has_id(s0, y.id));
                                    }
                                }
                                assert(sp_all_before(s2, y));
                            }
                        }
                    }
                }
            },
        }
        i = i + 1;
    }
    proof {
        assert(candidates@.take(candidates@.len() as int) =~= candidates@);
    }
    res
}

/// When a candidate with a fresh id enters a buffer without growing it,
/// some old element must have left: keeping them all alongside the
/// candidate would exceed the buffer's own size.
proof fn lemma_some_element_left(s0: Seq<ScoredPoint>, s2: Seq<ScoredPoint>, c: ScoredPoint)
    requires
        sp_sorted(s0),
        s2.len() == s0.len(),
        s2.contains(c),
        forall|k: int| 0 <= k < s0.len() ==> (#[trigger] s0[k]).id != c.id,
    ensures
        exists|e: int| 0 <= e < s0.len() && !s2.contains(#[trigger] s0[e]),
{
    if forall|e: int| 0 <= e < s0.len() ==> s2.contains(#[trigger] s0[e]) {
        assert(s0.no_duplicates()) by {
            assert forall|i: int, j: int| 0 <= i < j < s0.len() implies s0[i] != s0[j] by {
                assert(sp_before(s0[i], s0[j]));
            }
        }
        s0.unique_seq_to_set();
        s2.lemma_cardinality_of_set();
        vstd::seq_lib::seq_to_set_is_finite::<ScoredPoint>(s2);
        vstd::seq_lib::seq_to_set_is_finite::<ScoredPoint>(s0);
        let a = s0.to_set();
        assert(!a.contains(c)) by {
            if s0.contains(c) {
                let k = choose|k: int| 0 <= k < s0.len() && s0[k] == c;
                assert(s0[k].id == c.id);
            }
        }
        assert(a.insert(c).subset_of(s2.to_set())) by {
            assert forall|x: ScoredPoint| a.insert(c).contains(x) implies s2.to_set().contains(
                x,
            ) by {
                if x == c {
                    assert(s2.contains(x));
                } else {
                    assert(s0.contains(x));
                    let e = choose|e: int| 0 <= e < s0.len() && s0[e] == x;
                    assert(s2.contains(s0[e]));
                }
            }
        }
        vstd::set::axiom_set_insert_len(a, c);
        vstd::set_lib::lemma_len_subset(a.insert(c), s2.to_set());
        // the subset has one element more than the buffer can hold, so this
        // branch is impossible and the conclusion follows
    } else {
        assert(exists|e: int| 0 <= e < s0.len() && !s2.contains(#[trigger] s0[e]));
    }
}

} // verus!
