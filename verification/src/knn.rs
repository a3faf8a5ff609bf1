//! Bounded best-candidate sets for exact k-nearest-neighbor search.
//!
//! A candidate list holds at most `k` `Neighbor` entries, sorted by squared
//! distance to the target with ties broken by construction index. The
//! predicate `topk` says that a list is the canonical answer for a set `s`
//! of candidate indices: it holds the `min(k, |s|)` closest members of `s`,
//! in order. Every search strategy that establishes `topk` over the full
//! index therefore returns one and the same answer; `lemma_topk_unique`
//! proves that uniqueness.

use vstd::prelude::*;

use crate::catalog::EmbeddedBook;
use crate::catalog::uniform_dim;
use crate::distance::min_int;
use crate::distance::sq_dist;
use crate::distance::sqd;

verus! {

broadcast use vstd::set::group_set_axioms;

/// One query result: the construction index of a stored vector and its
/// squared distance to the target.
#[derive(Debug, Clone, Copy, PartialEq, Eq, Structural)]
pub struct Neighbor {
    pub idx: usize,
    pub dist: u128,
}

/// Squared distance from `target` to the vector stored at index `i`.
pub open spec fn dist_of(items: Seq<EmbeddedBook>, target: Seq<i32>, i: int) -> int {
    sqd(target, items[i].embeddings@)
}

/// The strict total order on candidate indices: nearer first, and among
/// equal distances the earlier construction index first.
pub open spec fn key_lt(items: Seq<EmbeddedBook>, target: Seq<i32>, i: int, j: int) -> bool {
    dist_of(items, target, i) < dist_of(items, target, j) || (dist_of(items, target, i) == dist_of(
        items,
        target,
        j,
    ) && i < j)
}

/// The index stored at position `p` of a candidate list.
pub open spec fn cidx(cs: Seq<Neighbor>, p: int) -> int {
    cs[p].idx as int
}

/// Every entry points into `items` and carries its true squared distance.
pub open spec fn cands_ok(items: Seq<EmbeddedBook>, target: Seq<i32>, cs: Seq<Neighbor>) -> bool {
    forall|p: int|
        0 <= p < cs.len() ==> 0 <= #[trigger] cidx(cs, p) < items.len() && cs[p].dist as int
            == dist_of(items, target, cidx(cs, p))
}

/// Entries appear in strictly ascending key order.
pub open spec fn cands_sorted(items: Seq<EmbeddedBook>, target: Seq<i32>, cs: Seq<Neighbor>) -> bool {
    forall|p: int, q: int|
        0 <= p < q < cs.len() ==> key_lt(items, target, #[trigger] cidx(cs, p), #[trigger] cidx(cs, q))
}

/// Some entry of `cs` holds index `j`.
pub open spec fn cands_contain(cs: Seq<Neighbor>, j: int) -> bool {
    exists|p: int| 0 <= p < cs.len() && #[trigger] cidx(cs, p) == j
}

/// `cs` is the canonical `k`-bounded answer over the candidate set `s`:
/// exact distances, strictly sorted, `min(k, |s|)` entries drawn from `s`,
/// everything in `s` kept while below capacity, and every member of `s`
/// that was left out ranks after every entry kept.
pub open spec fn topk(
    items: Seq<EmbeddedBook>,
    target: Seq<i32>,
    k: int,
    s: Set<int>,
    cs: Seq<Neighbor>,
) -> bool {
    &&& cands_ok(items, target, cs)
    &&& cands_sorted(items, target, cs)
    &&& cs.len() == min_int(k, s.len() as int)
    &&& (forall|p: int| 0 <= p < cs.len() ==> s.contains(#[trigger] cidx(cs, p)))
    &&& (cs.len() < k ==> (forall|j: int| #[trigger] s.contains(j) ==> cands_contain(cs, j)))
    &&& (forall|j: int, p: int|
        #[trigger] s.contains(j) && !cands_contain(cs, j) && 0 <= p < cs.len() ==> key_lt(
            items,
            target,
            #[trigger] cidx(cs, p),
            j,
        ))
}

/// Exec comparison matching `key_lt` on entries with true distances.
fn cand_before(a: &Neighbor, b: &Neighbor) -> (r: bool)
    ensures
        r == (a.dist < b.dist || (a.dist == b.dist && a.idx < b.idx)),
{
    a.dist < b.dist || (a.dist == b.dist && a.idx < b.idx)
}

/// Offer the candidate `c` to a canonical list for `s`; the list becomes
/// canonical for `s` with `c`'s index added, evicting the worst entry if
/// the list was at capacity.
pub(crate) fn push_candidate(
    items: &Vec<EmbeddedBook>,
    target: &Vec<i32>,
    k: usize,
    best: &mut Vec<Neighbor>,
    c: Neighbor,
    Ghost(s): Ghost<Set<int>>,
)
    requires
        k >= 1,
        s.finite(),
        topk(items@, target@, k as int, s, old(best)@),
        !s.contains(c.idx as int),
        (c.idx as int) < items@.len(),
        c.dist as int == dist_of(items@, target@, c.idx as int),
    ensures
        topk(items@, target@, k as int, s.insert(c.idx as int), final(best)@),
{
    let ghost s1 = s.insert(c.idx as int);
    let ghost old_cs = best@;
    let mut p: usize = 0;
    while p < best.len() && cand_before(&best[p], &c)
        invariant
            topk(items@, target@, k as int, s, old_cs),
            best@ == old_cs,
            p <= best@.len(),
            (c.idx as int) < items@.len(),
            c.dist as int == dist_of(items@, target@, c.idx as int),
            !s.contains(c.idx as int),
            forall|q: int| 0 <= q < p ==> key_lt(items@, target@, #[trigger] cidx(best@, q), c.idx as int),
        decreases best@.len() - p,
    {
        proof {
            assert(cidx(best@, p as int) == best@[p as int].idx as int);
            assert(key_lt(items@, target@, cidx(best@, p as int), c.idx as int));
        }
        p = p + 1;
    }
    let pos = p;
    proof {
        // From this position on, `c` ranks before every kept entry.
        if (pos as int) < best@.len() {
            assert(s.contains(cidx(best@, pos as int)));
            assert(cidx(best@, pos as int) != c.idx as int);
            assert(key_lt(items@, target@, c.idx as int, cidx(best@, pos as int)));
        }
        assert forall|q: int| pos <= q < old_cs.len() implies key_lt(
            items@,
            target@,
            c.idx as int,
            #[trigger] cidx(old_cs, q),
        ) by {
            if q > pos {
                assert(key_lt(items@, target@, cidx(old_cs, pos as int), cidx(old_cs, q)));
            }
        };
    }
    best.insert(pos, c);
    proof {
        old_cs.insert_ensures(pos as int, c);
    }
    let ghost mid = best@;
    if best.len() > k {
        let _popped = best.pop();
    }
    proof {
        let csf = best@;
        let n_old = old_cs.len() as int;
        assert(s1.len() == s.len() + 1);
        assert(mid.len() == n_old + 1);
        assert(mid[pos as int] == c);
        // `mid` is sorted with exact distances.
        assert forall|q: int| 0 <= q < mid.len() implies 0 <= #[trigger] cidx(mid, q)
            < items@.len() && mid[q].dist as int == dist_of(items@, target@, cidx(mid, q)) by {
            if q < pos {
                assert(mid[q] == old_cs[q]);
                assert(cidx(mid, q) == cidx(old_cs, q));
            } else if q == pos {
                assert(cidx(mid, q) == c.idx as int);
            } else {
                assert(mid[q] == old_cs[q - 1]);
                assert(cidx(mid, q) == cidx(old_cs, q - 1));
            }
        };
        assert forall|q1: int, q2: int| 0 <= q1 < q2 < mid.len() implies key_lt(
            items@,
            target@,
            #[trigger] cidx(mid, q1),
            #[trigger] cidx(mid, q2),
        ) by {
            if q2 < pos {
                assert(mid[q1] == old_cs[q1] && mid[q2] == old_cs[q2]);
                assert(key_lt(items@, target@, cidx(old_cs, q1), cidx(old_cs, q2)));
            } else if q1 < pos && q2 == pos {
                assert(mid[q1] == old_cs[q1]);
                assert(key_lt(items@, target@, cidx(old_cs, q1), c.idx as int));
            } else if q1 < pos && q2 > pos {
                assert(mid[q1] == old_cs[q1] && mid[q2] == old_cs[q2 - 1]);
                if q1 == q2 - 1 {
                    assert(false);
                }
                assert(key_lt(items@, target@, cidx(old_cs, q1), cidx(old_cs, q2 - 1)));
            } else if q1 == pos {
                assert(mid[q2] == old_cs[q2 - 1]);
                assert(key_lt(items@, target@, c.idx as int, cidx(old_cs, q2 - 1)));
            } else {
                assert(mid[q1] == old_cs[q1 - 1] && mid[q2] == old_cs[q2 - 1]);
                assert(key_lt(items@, target@, cidx(old_cs, q1 - 1), cidx(old_cs, q2 - 1)));
            }
        };
        // Old entries all survive into `mid`.
        assert forall|j: int| cands_contain(old_cs, j) implies cands_contain(mid, j) by {
            let q = choose|q: int| 0 <= q < old_cs.len() && #[trigger] cidx(old_cs, q) == j;
            if q < pos {
                assert(cidx(mid, q) == j);
            } else {
                assert(mid[q + 1] == old_cs[q]);
                assert(cidx(mid, q + 1) == j);
            }
        };
        assert(cidx(mid, pos as int) == c.idx as int);
        assert(cands_contain(mid, c.idx as int));
        if n_old + 1 <= k {
            // No eviction: the list simply grew.
            assert(csf == mid);
            assert(n_old < k);
            assert(n_old == min_int(k as int, s.len() as int));
            assert(s.len() == n_old);
            assert(csf.len() == min_int(k as int, s1.len() as int));
            assert forall|j: int| #[trigger] s1.contains(j) implies cands_contain(csf, j) by {
                if j == c.idx as int {
                } else {
                    assert(s.contains(j));
                    assert(cands_contain(old_cs, j));
                }
            };
            assert forall|q: int| 0 <= q < csf.len() implies s1.contains(#[trigger] cidx(csf, q)) by {
                if q < pos {
                    assert(csf[q] == old_cs[q]);
                    assert(s.contains(cidx(old_cs, q)));
                } else if q == pos {
                } else {
                    assert(csf[q] == old_cs[q - 1]);
                    assert(s.contains(cidx(old_cs, q - 1)));
                }
            };
            assert(topk(items@, target@, k as int, s1, csf));
        } else {
            // At capacity: the worst of the k + 1 entries was dropped.
            assert(n_old == k);
            assert(s.len() >= k);
            assert(csf == mid.subrange(0, k as int));
            assert(csf.len() == k);
            assert(csf.len() == min_int(k as int, s1.len() as int));
            let dropped = cidx(mid, k as int);
            assert forall|q: int| 0 <= q < csf.len() implies s1.contains(#[trigger] cidx(csf, q)) by {
                assert(csf[q] == mid[q]);
                if q < pos {
                    assert(mid[q] == old_cs[q]);
                    assert(s.contains(cidx(old_cs, q)));
                } else if q == pos {
                } else {
                    assert(mid[q] == old_cs[q - 1]);
                    assert(s.contains(cidx(old_cs, q - 1)));
                }
            };
            assert forall|j: int, q: int|
                #[trigger] s1.contains(j) && !cands_contain(csf, j) && 0 <= q < csf.len() implies key_lt(
                items@,
                target@,
                #[trigger] cidx(csf, q),
                j,
            ) by {
                assert(csf[q] == mid[q]);
                if j == dropped {
                    // The dropped entry ranks after everything kept.
                    assert(key_lt(items@, target@, cidx(mid, q), cidx(mid, k as int)));
                } else {
                    // `j` was already left out before the offer.
                    assert(j != c.idx as int || cands_contain(mid, j));
                    if j == c.idx as int {
                        // c is in mid; if kept it contradicts !contains, so c was dropped
                        let qq = choose|qq: int|
                            0 <= qq < mid.len() && #[trigger] cidx(mid, qq) == j;
                        assert(cidx(mid, pos as int) == j);
                        if pos < k {
                            assert(cidx(csf, pos as int) == j);
                            assert(false);
                        } else {
                            assert(j == dropped);
                            assert(false);
                        }
                    }
                    assert(s.contains(j));
                    if cands_contain(old_cs, j) {
                        let qo = choose|qo: int|
                            0 <= qo < old_cs.len() && #[trigger] cidx(old_cs, qo) == j;
                        if qo < pos {
                            assert(cidx(mid, qo) == j);
                            assert(cidx(csf, qo) == j);
                            assert(false);
                        } else {
                            assert(cidx(mid, qo + 1) == j);
                            if qo + 1 < k {
                                assert(cidx(csf, qo + 1) == j);
                                assert(false);
                            } else {
                                // j is the dropped entry, handled above
                                assert(j == dropped);
                                assert(false);
                            }
                        }
                    }
                    assert(!cands_contain(old_cs, j));
                    // every old entry ranks before j; so does c, through the old last.
                    if q == pos && pos < k {
                        assert(cidx(mid, k as int) == cidx(old_cs, k - 1));
                        assert(key_lt(items@, target@, c.idx as int, cidx(old_cs, k - 1)));
                        assert(key_lt(items@, target@, cidx(old_cs, k - 1), j));
                    } else if q < pos {
                        assert(mid[q] == old_cs[q]);
                        assert(key_lt(items@, target@, cidx(old_cs, q), j));
                    } else {
                        assert(mid[q] == old_cs[q - 1]);
                        assert(key_lt(items@, target@, cidx(old_cs, q - 1), j));
                    }
                }
            };
            assert forall|q: int| 0 <= q < csf.len() implies 0 <= #[trigger] cidx(csf, q)
                < items@.len() && csf[q].dist as int == dist_of(items@, target@, cidx(csf, q)) by {
                assert(csf[q] == mid[q]);
                assert(cidx(csf, q) == cidx(mid, q));
            };
            assert forall|q1: int, q2: int| 0 <= q1 < q2 < csf.len() implies key_lt(
                items@,
                target@,
                #[trigger] cidx(csf, q1),
                #[trigger] cidx(csf, q2),
            ) by {
                assert(csf[q1] == mid[q1] && csf[q2] == mid[q2]);
                assert(cidx(csf, q1) == cidx(mid, q1) && cidx(csf, q2) == cidx(mid, q2));
                assert(key_lt(items@, target@, cidx(mid, q1), cidx(mid, q2)));
            };
            assert(topk(items@, target@, k as int, s1, csf));
        }
    }
}

/// Dropping the first entry of a canonical list leaves a list that is
/// canonical for the remaining candidates with capacity one smaller.
proof fn lemma_topk_tail(
    items: Seq<EmbeddedBook>,
    target: Seq<i32>,
    k: int,
    s: Set<int>,
    cs: Seq<Neighbor>,
)
    requires
        s.finite(),
        topk(items, target, k, s, cs),
        cs.len() > 0,
    ensures
        topk(items, target, k - 1, s.remove(cidx(cs, 0)), cs.subrange(1, cs.len() as int)),
{
    let a = cidx(cs, 0);
    let st = s.remove(a);
    let t = cs.subrange(1, cs.len() as int);
    assert(s.contains(a));
    assert(st.len() == s.len() - 1);
    assert forall|q: int| 0 <= q < t.len() implies #[trigger] cidx(t, q) == cidx(cs, q + 1) && t[q]
        == cs[q + 1] by {
        assert(t[q] == cs[q + 1]);
    };
    assert forall|q: int| 0 <= q < t.len() implies 0 <= #[trigger] cidx(t, q) < items.len()
        && t[q].dist as int == dist_of(items, target, cidx(t, q)) by {
        assert(cidx(t, q) == cidx(cs, q + 1));
    };
    assert forall|q1: int, q2: int| 0 <= q1 < q2 < t.len() implies key_lt(
        items,
        target,
        #[trigger] cidx(t, q1),
        #[trigger] cidx(t, q2),
    ) by {
        assert(key_lt(items, target, cidx(cs, q1 + 1), cidx(cs, q2 + 1)));
    };
    assert forall|q: int| 0 <= q < t.len() implies st.contains(#[trigger] cidx(t, q)) by {
        assert(cidx(t, q) == cidx(cs, q + 1));
        assert(s.contains(cidx(cs, q + 1)));
        assert(key_lt(items, target, cidx(cs, 0), cidx(cs, q + 1)));
    };
    assert(t.len() == min_int(k - 1, st.len() as int));
    assert forall|j: int| cands_contain(cs, j) && j != a implies cands_contain(t, j) by {
        let p = choose|p: int| 0 <= p < cs.len() && #[trigger] cidx(cs, p) == j;
        assert(p != 0);
        assert(cidx(t, p - 1) == cidx(cs, p));
    };
    if t.len() < k - 1 {
        assert forall|j: int| #[trigger] st.contains(j) implies cands_contain(t, j) by {
            assert(s.contains(j));
            assert(cands_contain(cs, j));
        };
    }
    assert forall|j: int, q: int|
        #[trigger] st.contains(j) && !cands_contain(t, j) && 0 <= q < t.len() implies key_lt(
        items,
        target,
        #[trigger] cidx(t, q),
        j,
    ) by {
        assert(s.contains(j));
        if cands_contain(cs, j) {
            assert(cands_contain(t, j));
            assert(false);
        }
        assert(cidx(t, q) == cidx(cs, q + 1));
        assert(key_lt(items, target, cidx(cs, q + 1), j));
    };
}

/// Exact k-nearest-neighbor answers are unique: two lists that are both
/// canonical for the same candidate set, capacity, and target are equal.
/// Since the pruned tree search and the brute-force scan each establish
/// `topk` over all stored indices, this is the exactness law: the tree
/// query returns precisely the brute-force answer, order included.
pub proof fn lemma_topk_unique(
    items: Seq<EmbeddedBook>,
    target: Seq<i32>,
    k: int,
    s: Set<int>,
    cs1: Seq<Neighbor>,
    cs2: Seq<Neighbor>,
)
    requires
        s.finite(),
        topk(items, target, k, s, cs1),
        topk(items, target, k, s, cs2),
    ensures
        cs1 == cs2,
    decreases cs1.len(),
{
    assert(cs1.len() == cs2.len());
    if cs1.len() == 0 {
        assert(cs1 =~= cs2);
    } else {
        let a = cidx(cs1, 0);
        let b = cidx(cs2, 0);
        assert forall|j: int| s.contains(j) && j != a implies key_lt(items, target, a, j) by {
            if cands_contain(cs1, j) {
                let p = choose|p: int| 0 <= p < cs1.len() && #[trigger] cidx(cs1, p) == j;
                assert(p != 0);
                assert(key_lt(items, target, cidx(cs1, 0), cidx(cs1, p)));
            } else {
                assert(key_lt(items, target, cidx(cs1, 0), j));
            }
        };
        assert forall|j: int| s.contains(j) && j != b implies key_lt(items, target, b, j) by {
            if cands_contain(cs2, j) {
                let p = choose|p: int| 0 <= p < cs2.len() && #[trigger] cidx(cs2, p) == j;
                assert(p != 0);
                assert(key_lt(items, target, cidx(cs2, 0), cidx(cs2, p)));
            } else {
                assert(key_lt(items, target, cidx(cs2, 0), j));
            }
        };
        assert(s.contains(a));
        assert(s.contains(b));
        if a != b {
            assert(key_lt(items, target, a, b));
            assert(key_lt(items, target, b, a));
            assert(false);
        }
        assert(cs1[0].dist as int == dist_of(items, target, a));
        assert(cs2[0].dist as int == dist_of(items, target, b));
        assert(cs1[0] == cs2[0]);
        lemma_topk_tail(items, target, k, s, cs1);
        lemma_topk_tail(items, target, k, s, cs2);
        let t1 = cs1.subrange(1, cs1.len() as int);
        let t2 = cs2.subrange(1, cs2.len() as int);
        lemma_topk_unique(items, target, k - 1, s.remove(a), t1, t2);
        assert forall|i: int| 0 <= i < cs1.len() implies cs1[i] == cs2[i] by {
            if i > 0 {
                assert(t1[i - 1] == cs1[i]);
                assert(t2[i - 1] == cs2[i]);
            }
        };
        assert(cs1 =~= cs2);
    }
}

/// Exactness of the pruned search: a tree query result and a brute-force
/// scan result over the same batch, target, and capacity — each canonical
/// over all stored indices, as `KdIndex::query` and `nearest_linear`
/// respectively ensure — are one and the same sequence, for every `k`.
pub proof fn lemma_query_matches_scan(
    items: Seq<EmbeddedBook>,
    target: Seq<i32>,
    k: int,
    r_tree: Seq<Neighbor>,
    r_scan: Seq<Neighbor>,
)
    requires
        topk(items, target, k, vstd::set_lib::set_int_range(0, items.len() as int), r_tree),
        topk(items, target, k, vstd::set_lib::set_int_range(0, items.len() as int), r_scan),
    ensures
        r_tree == r_scan,
{
    vstd::set_lib::lemma_int_range(0, items.len() as int);
    lemma_topk_unique(
        items,
        target,
        k,
        vstd::set_lib::set_int_range(0, items.len() as int),
        r_tree,
        r_scan,
    );
}

/// Brute-force reference search: offer every stored vector in construction
/// order. The result is the canonical `k`-bounded answer over all indices.
pub fn nearest_linear(items: &Vec<EmbeddedBook>, target: &Vec<i32>, k: usize) -> (r: Vec<Neighbor>)
    requires
        uniform_dim(items@, target@.len() as int),
    ensures
        topk(items@, target@, k as int, vstd::set_lib::set_int_range(0, items@.len() as int), r@),
{
    let ghost n = items@.len() as int;
    proof {
        vstd::set_lib::lemma_int_range(0, n);
    }
    let mut best: Vec<Neighbor> = Vec::new();
    if k == 0 {
        proof {
            assert(best@.len() == min_int(0, vstd::set_lib::set_int_range(0, n).len() as int));
        }
        return best;
    }
    let mut i: usize = 0;
    proof {
        vstd::set_lib::lemma_int_range(0, 0);
    }
    while i < items.len()
        invariant
            k >= 1,
            uniform_dim(items@, target@.len() as int),
            i <= items@.len(),
            topk(items@, target@, k as int, vstd::set_lib::set_int_range(0, i as int), best@),
        decreases items@.len() - i,
    {
        proof {
            vstd::set_lib::lemma_int_range(0, i as int);
        }
        let d = sq_dist(target, &items[i].embeddings);
        push_candidate(
            items,
            target,
            k,
            &mut best,
            Neighbor { idx: i, dist: d },
            Ghost(vstd::set_lib::set_int_range(0, i as int)),
        );
        proof {
            assert(vstd::set_lib::set_int_range(0, i as int).insert(i as int)
                =~= vstd::set_lib::set_int_range(0, i as int + 1));
        }
        i = i + 1;
    }
    best
}

} // verus!
