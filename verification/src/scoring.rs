//! Similarity scoring and top-k selection: the dot-product score, the
//! result order (descending score, ties broken by ascending offset), and a
//! bounded buffer that keeps the best `top` candidates seen so far.

use crate::types::{PointOffsetType, ScoreType};
use vstd::prelude::*;

verus! {

/// A transient search result pairing a point offset with its score.
#[derive(Clone, Copy, PartialEq, Eq, Structural, Debug)]
pub struct ScoredPointOffset {
    pub idx: PointOffsetType,
    pub score: ScoreType,
}

/// Strict result order: higher score first; for equal scores the lower
/// offset comes first, which makes result order deterministic.
pub open spec fn spo_before(a: ScoredPointOffset, b: ScoredPointOffset) -> bool {
    a.score > b.score || (a.score == b.score && a.idx < b.idx)
}

/// Every earlier element of `s` comes strictly before every later one.
pub open spec fn sorted_by_score(s: Seq<ScoredPointOffset>) -> bool {
    forall|i: int, j: int| 0 <= i < j < s.len() ==> spo_before(s[i], s[j])
}

/// Some element of `s` carries the offset `off`.
pub open spec fn appears(s: Seq<ScoredPointOffset>, off: int) -> bool {
    exists|k: int| 0 <= k < s.len() && s[k].idx == off
}

/// Every element of `s` comes strictly before `x`.
pub open spec fn all_before(s: Seq<ScoredPointOffset>, x: ScoredPointOffset) -> bool {
    forall|k: int| 0 <= k < s.len() ==> spo_before(#[trigger] s[k], x)
}

/// Dot product of the first `n` coordinates of `a` and `b`.
pub open spec fn spec_dot_prefix(a: Seq<i32>, b: Seq<i32>, n: int) -> int
    decreases n,
{
    if n <= 0 {
        0
    } else {
        spec_dot_prefix(a, b, n - 1) + a[n - 1] * b[n - 1]
    }
}

/// Similarity of two equal-length vectors: their dot product.
pub open spec fn spec_dot(a: Seq<i32>, b: Seq<i32>) -> int {
    spec_dot_prefix(a, b, a.len() as int)
}

pub proof fn lemma_dot_prefix_bound(a: Seq<i32>, b: Seq<i32>, n: int)
    requires
        0 <= n,
        n <= a.len(),
        n <= b.len(),
    ensures
        -n * 0x4000_0000_0000_0000 <= spec_dot_prefix(a, b, n),
        spec_dot_prefix(a, b, n) <= n * 0x4000_0000_0000_0000,
    decreases n,
{
    if n > 0 {
        lemma_dot_prefix_bound(a, b, n - 1);
        let x = a[n - 1] as int;
        let y = b[n - 1] as int;
        assert(-0x4000_0000_0000_0000 <= x * y && x * y <= 0x4000_0000_0000_0000)
            by (nonlinear_arith)
            requires
                -0x8000_0000 <= x <= 0x7fff_ffff,
                -0x8000_0000 <= y <= 0x7fff_ffff,
        ;
    }
}

/// Computes the dot product of two equal-length vectors. The accumulator is
/// wide enough that no overflow is possible for any vector length.
pub fn dot_product(a: &Vec<i32>, b: &Vec<i32>) -> (r: ScoreType)
    requires
        a@.len() == b@.len(),
    ensures
        r == spec_dot(a@, b@),
{
    let mut acc: i128 = 0;
    let mut i: usize = 0;
    while i < a.len()
        invariant
            a@.len() == b@.len(),
            i <= a@.len(),
            acc == spec_dot_prefix(a@, b@, i as int),
        decreases a@.len() - i as int,
    {
        proof {
            lemma_dot_prefix_bound(a@, b@, i as int);
            let x = a@[i as int] as int;
            let y = b@[i as int] as int;
            assert(-0x4000_0000_0000_0000 <= x * y && x * y <= 0x4000_0000_0000_0000)
                by (nonlinear_arith)
                requires
                    -0x8000_0000 <= x <= 0x7fff_ffff,
                    -0x8000_0000 <= y <= 0x7fff_ffff,
            ;
            assert((i as int + 1) * 0x4000_0000_0000_0000
                <= 0x10000_0000_0000_0000 * 0x4000_0000_0000_0000) by (nonlinear_arith)
                requires
                    0 <= i as int + 1 <= 0x10000_0000_0000_0000,
            ;
            assert(-(i as int + 1) * 0x4000_0000_0000_0000
                >= -(0x10000_0000_0000_0000 * 0x4000_0000_0000_0000)) by (nonlinear_arith)
                requires
                    0 <= i as int + 1 <= 0x10000_0000_0000_0000,
            ;
        }
        let prod: i128 = (a[i] as i128) * (b[i] as i128);
        acc = acc + prod;
        i = i + 1;
    }
    acc
}

/// Inserts a candidate into a buffer that is kept sorted by `spo_before`
/// and holds at most `top` elements: the best `top` candidates seen so far.
///
/// The contract characterizes the buffer exactly: elements come only from
/// the old buffer and the candidate; while the buffer is not full nothing
/// is dropped; anything dropped is beaten by everything kept.
pub fn top_k_insert(res: &mut Vec<ScoredPointOffset>, c: ScoredPointOffset, top: usize)
    requires
        sorted_by_score(old(res)@),
        old(res)@.len() <= top,
        forall|k: int| 0 <= k < old(res)@.len() ==> old(res)@[k].idx != c.idx,
    ensures
        sorted_by_score(final(res)@),
        final(res)@.len() == (if old(res)@.len() < top {
            old(res)@.len() + 1
        } else {
            top as nat
        }),
        forall|x: ScoredPointOffset| #[trigger]
            final(res)@.contains(x) ==> old(res)@.contains(x) || x == c,
        old(res)@.len() < top ==> final(res)@.contains(c) && (forall|x: ScoredPointOffset|
            #[trigger] old(res)@.contains(x) ==> final(res)@.contains(x)),
        forall|x: ScoredPointOffset|
            (old(res)@.contains(x) || x == c) && !final(res)@.contains(x)
                ==> #[trigger] all_before(final(res)@, x),
        forall|x: ScoredPointOffset| #[trigger]
            all_before(old(res)@, x) && old(res)@.len() == top ==> all_before(final(res)@, x),
{
    let ghost s0 = res@;
    if top == 0 {
        proof {
            assert(s0.len() == 0);
            assert forall|x: ScoredPointOffset|
                (s0.contains(x) || x == c) && !res@.contains(x) implies all_before(res@, x) by {
                assert(res@.len() == 0);
            }
        }
        return ;
    }
    let mut pos: usize = 0;
    while pos < res.len()
        invariant
            res@ == s0,
            pos <= s0.len(),
            forall|k: int| 0 <= k < pos as int ==> !spo_before(c, s0[k]),
        ensures
            res@ == s0,
            pos <= s0.len(),
            forall|k: int| 0 <= k < pos as int ==> !spo_before(c, s0[k]),
            pos < s0.len() ==> spo_before(c, s0[pos as int]),
        decreases s0.len() - pos as int,
    {
        if c.score > res[pos].score || (c.score == res[pos].score && c.idx < res[pos].idx) {
            break ;
        }
        pos = pos + 1;
    }
    res.insert(pos, c);
    let ghost s1 = res@;
    proof {
        // indices of the old buffer around the insertion point
        assert(forall|k: int| 0 <= k < pos as int ==> s1[k] == s0[k]);
        assert(s1[pos as int] == c);
        assert(forall|k: int| (pos as int) < k < s1.len() ==> s1[k] == s0[k - 1]);
        // elements before the insertion point beat the candidate
        assert(forall|k: int|
            0 <= k < pos as int ==> spo_before(#[trigger] s0[k], c));
        assert forall|i: int, j: int| 0 <= i < j < s1.len() implies spo_before(s1[i], s1[j]) by {
            if j < pos as int {
                assert(s1[i] == s0[i] && s1[j] == s0[j]);
            } else if i < pos as int && j == pos as int {
                assert(s1[i] == s0[i] && s1[j] == c);
            } else if i < pos as int && j > pos as int {
                assert(s1[i] == s0[i] && s1[j] == s0[j - 1]);
            } else if i == pos as int {
                assert(s1[i] == c && s1[j] == s0[j - 1]);
                assert(spo_before(c, s0[pos as int]));
                if j - 1 > pos as int {
                    assert(spo_before(s0[pos as int], s0[j - 1]));
                }
            } else {
                assert(s1[i] == s0[i - 1] && s1[j] == s0[j - 1]);
            }
        }
        assert(sorted_by_score(s1));
    }
    if res.len() > top {
        let _ = res.pop();
    }
    proof {
        let s2 = res@;
        let dropped = s1.len() > top;
        if dropped {
            assert(s0.len() == top);
            assert(s2 =~= s1.drop_last());
        } else {
            assert(s2 == s1);
        }
        assert(sorted_by_score(s2));
        // membership: everything in the result was there before, or is c
        assert forall|x: ScoredPointOffset| #[trigger]
            s2.contains(x) implies s0.contains(x) || x == c by {
            let k = choose|k: int| 0 <= k < s2.len() && s2[k] == x;
            assert(s2[k] == s1[k]);
            if k < pos as int {
                assert(s0[k] == x);
                assert(s0.contains(x));
            } else if k > pos as int {
                assert(s0[k - 1] == x);
                assert(s0.contains(x));
            }
        }
        // retention while the buffer was not full
        if s0.len() < top {
            assert(!dropped);
            assert(s2.contains(c)) by {
                assert(s2[pos as int] == c);
            }
            assert forall|x: ScoredPointOffset| #[trigger]
                s0.contains(x) implies s2.contains(x) by {
                let k = choose|k: int| 0 <= k < s0.len() && s0[k] == x;
                if k < pos as int {
                    assert(s2[k] == x);
                } else {
                    assert(s2[k + 1] == x);
                }
            }
        }
        // anything dropped is beaten by everything kept
        assert forall|x: ScoredPointOffset|
            (s0.contains(x) || x == c) && !s2.contains(x) implies all_before(s2, x) by {
            assert(dropped) by {
                if !dropped {
                    if x == c {
                        assert(s2[pos as int] == c);
                        assert(s2.contains(x));
                    } else {
                        let k = choose|k: int| 0 <= k < s0.len() && s0[k] == x;
                        if k < pos as int {
                            assert(s2[k] == x);
                        } else {
                            assert(s2[k + 1] == x);
                        }
                        assert(s2.contains(x));
                    }
                }
            }
            // the only element that can be missing is the last of s1
            assert(x == s1[s1.len() - 1]) by {
                if x == c {
                    if (pos as int) < s1.len() - 1 {
                        assert(s2[pos as int] == c);
                        assert(s2.contains(x));
                    }
                } else {
                    let k = choose|k: int| 0 <= k < s0.len() && s0[k] == x;
                    if k < pos as int {
                        assert(s2[k] == x);
                        assert(s2.contains(x));
                    } else if k + 1 < s1.len() - 1 {
                        assert(s2[k + 1] == x);
                        assert(s2.contains(x));
                    } else if k + 1 == s1.len() - 1 {
                        assert(x == s1[s1.len() - 1]);
                    }
                }
            }
            assert forall|k: int| 0 <= k < s2.len() implies spo_before(#[trigger] s2[k], x) by {
                assert(s2[k] == s1[k]);
                assert(spo_before(s1[k], s1[s1.len() - 1]));
            }
        }
        // a candidate beaten by a full old buffer stays beaten
        assert forall|x: ScoredPointOffset| #[trigger]
            all_before(s0, x) && s0.len() == top implies all_before(s2, x) by {
            assert forall|k: int| 0 <= k < s2.len() implies spo_before(#[trigger] s2[k], x) by {
                assert(s2[k] == s1[k]);
                if k < pos as int {
                    assert(s1[k] == s0[k]);
                } else if k > pos as int {
                    assert(s1[k] == s0[k - 1]);
                } else {
                    // s2[k] is the candidate itself; it was inserted before
                    // some old element, which in turn beats x
                    assert(pos < top);
                    assert(spo_before(c, s0[pos as int]));
                    assert(spo_before(s0[pos as int], x));
                }
            }
        }
    }
}

} // verus!
