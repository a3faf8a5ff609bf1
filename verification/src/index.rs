//! The built index: exclusive owner of the vector batch, organized as a
//! k-d tree, answering exact k-nearest-neighbor queries.
//!
//! `build` consumes the whole batch once; `query` walks the tree, visiting
//! the near side of every split first and entering the far side only when
//! the splitting plane is at least as close as the worst candidate kept —
//! visiting on equality preserves the deterministic tie-break, so the
//! pruned search is proved to return exactly the canonical answer that a
//! brute-force scan would.

use vstd::prelude::*;

use crate::catalog::EmbeddedBook;
use crate::catalog::uniform_dim;
use crate::distance::lemma_sq_between;
use crate::distance::lemma_sqd_prefix_term;
use crate::distance::min_int;
use crate::distance::plane_sq;
use crate::distance::sq_dist;
use crate::knn::Neighbor;
use crate::knn::cands_contain;
use crate::knn::cidx;
use crate::knn::dist_of;
use crate::knn::key_lt;
use crate::knn::push_candidate;
use crate::knn::topk;
use crate::tree::Tree;
use crate::tree::build_rec;
use crate::tree::idx_set;
use crate::tree::lemma_tree_set_finite;
use crate::tree::tree_count;
use crate::tree::tree_set;
use crate::tree::wf_tree;
use vstd::set_lib::lemma_int_range;
use vstd::set_lib::lemma_len_subset;
use vstd::set_lib::set_int_range;

verus! {

broadcast use vstd::set::group_set_axioms;

/// Why an index operation was refused.
#[derive(Debug, Clone, Copy, PartialEq, Eq, Structural)]
pub enum IndexError {
    /// `build` was given no vectors at all.
    EmptyIndex,
    /// A query vector's dimension differs from the index's.
    DimensionMismatch,
}

/// A k-d tree over a batch of embedded records, built once, never mutated.
#[derive(Debug)]
pub struct KdIndex {
    pub items: Vec<EmbeddedBook>,
    pub root: Tree,
    pub dim: usize,
}

impl KdIndex {
    /// The index invariant: a nonempty uniform batch, and a well-formed
    /// tree holding each stored index exactly once.
    pub open spec fn wf(self) -> bool {
        &&& self.dim >= 1
        &&& self.items@.len() >= 1
        &&& uniform_dim(self.items@, self.dim as int)
        &&& wf_tree(self.root, self.items@, 0, self.dim as int)
        &&& tree_set(self.root) == set_int_range(0, self.items@.len() as int)
        &&& tree_count(self.root) == self.items@.len()
    }

    /// Build the index from a complete batch. Fails only on an empty
    /// batch; a single vector yields a single-node tree.
    pub fn build(items: Vec<EmbeddedBook>) -> (r: Result<KdIndex, IndexError>)
        requires
            items@.len() > 0 ==> items@[0].embeddings@.len() >= 1,
            forall|i: int|
                0 <= i < items@.len() ==> (#[trigger] items@[i]).embeddings@.len()
                    == items@[0].embeddings@.len(),
        ensures
            (r is Ok) <==> items@.len() > 0,
            r is Err ==> r->Err_0 == IndexError::EmptyIndex,
            r is Ok ==> (r->Ok_0).wf() && (r->Ok_0).items@ == items@ && (r->Ok_0).dim as int
                == items@[0].embeddings@.len(),
    {
        if items.len() == 0 {
            return Err(IndexError::EmptyIndex);
        }
        let dim = items[0].embeddings.len();
        let n = items.len();
        let mut idxs: Vec<usize> = Vec::new();
        let mut i: usize = 0;
        while i < n
            invariant
                n == items@.len(),
                i <= n,
                idxs@.len() == i as int,
                forall|p: int| 0 <= p < i ==> (#[trigger] idxs@[p]) as int == p,
            decreases n - i,
        {
            idxs.push(i);
            i = i + 1;
        }
        proof {
            assert(idxs@.no_duplicates());
            assert(forall|p: int|
                0 <= p < idxs@.len() ==> (#[trigger] idxs@[p] as int) < items@.len());
        }
        let ghost iv = idxs@;
        let root = build_rec(&items, idxs, 0, dim);
        proof {
            lemma_int_range(0, n as int);
            assert forall|j: int| set_int_range(0, n as int).contains(j) implies idx_set(
                iv,
            ).contains(j) by {
                assert(iv[j] as int == j);
            };
            assert forall|j: int| idx_set(iv).contains(j) implies set_int_range(
                0,
                n as int,
            ).contains(j) by {
                let p = choose|p: int| 0 <= p < iv.len() && #[trigger] iv[p] as int == j;
            };
            assert(tree_set(root) =~= set_int_range(0, n as int));
        }
        Ok(KdIndex { items, root, dim })
    }

    /// The stored record at construction index `i`.
    pub fn item(&self, i: usize) -> (r: &EmbeddedBook)
        requires
            (i as int) < self.items@.len(),
        ensures
            *r == self.items@[i as int],
    {
        &self.items[i]
    }

    /// How many vectors the index holds.
    pub fn size(&self) -> (n: usize)
        ensures
            n as int == self.items@.len(),
    {
        self.items.len()
    }

    /// Exact k-nearest-neighbor query: the canonical `min(k, n)` closest
    /// stored vectors, ascending by squared distance, ties by
    /// construction order. Fails exactly on a dimension mismatch.
    pub fn query(&self, target: &Vec<i32>, k: usize) -> (r: Result<Vec<Neighbor>, IndexError>)
        requires
            self.wf(),
        ensures
            (r is Ok) <==> target@.len() == self.dim as int,
            r is Err ==> r->Err_0 == IndexError::DimensionMismatch,
            r is Ok ==> topk(
                self.items@,
                target@,
                k as int,
                set_int_range(0, self.items@.len() as int),
                (r->Ok_0)@,
            ),
    {
        if target.len() != self.dim {
            return Err(IndexError::DimensionMismatch);
        }
        let mut best: Vec<Neighbor> = Vec::new();
        proof {
            lemma_int_range(0, self.items@.len() as int);
        }
        if k == 0 {
            return Ok(best);
        }
        proof {
            assert(best@.len() == min_int(k as int, Set::<int>::empty().len() as int));
            assert(topk(self.items@, target@, k as int, Set::<int>::empty(), best@));
        }
        search_rec(&self.items, &self.root, target, 0, self.dim, k, &mut best, Ghost(Set::empty()));
        proof {
            assert(Set::<int>::empty().union(tree_set(self.root)) =~= set_int_range(
                0,
                self.items@.len() as int,
            ));
        }
        Ok(best)
    }
}

/// Walk a subtree, folding every stored vector it holds into the
/// candidate list; the far side of a split is skipped only when the
/// splitting plane is strictly farther than the worst candidate of a full
/// list, which the partition invariant proves safe.
fn search_rec(
    items: &Vec<EmbeddedBook>,
    tree: &Tree,
    target: &Vec<i32>,
    axis: usize,
    dim: usize,
    k: usize,
    best: &mut Vec<Neighbor>,
    Ghost(s): Ghost<Set<int>>,
)
    requires
        k >= 1,
        dim >= 1,
        (axis as int) < dim as int,
        uniform_dim(items@, dim as int),
        target@.len() == dim as int,
        wf_tree(*tree, items@, axis as int, dim as int),
        s.finite(),
        forall|j: int| #[trigger] s.contains(j) ==> !tree_set(*tree).contains(j),
        topk(items@, target@, k as int, s, old(best)@),
    ensures
        topk(items@, target@, k as int, s.union(tree_set(*tree)), final(best)@),
    decreases *tree,
{
    match tree {
        Tree::Leaf => {
            proof {
                assert(s.union(tree_set(*tree)) =~= s);
            }
        },
        Tree::Node { idx, left, right } => {
            let i = *idx;
            proof {
                lemma_tree_set_finite(**left);
                lemma_tree_set_finite(**right);
                assert(tree_set(*tree).contains(i as int));
                if s.contains(i as int) {
                    assert(!tree_set(*tree).contains(i as int));
                }
            }
            let d = sq_dist(target, &items[i].embeddings);
            push_candidate(items, target, k, best, Neighbor { idx: i, dist: d }, Ghost(s));
            let ghost s1 = s.insert(i as int);
            let na = if axis + 1 == dim {
                0
            } else {
                axis + 1
            };
            let t_ax = target[axis];
            let split = items[i].embeddings[axis];
            let go_left = t_ax <= split;
            let near: &Tree = if go_left {
                &**left
            } else {
                &**right
            };
            let far: &Tree = if go_left {
                &**right
            } else {
                &**left
            };
            proof {
                assert forall|j: int| #[trigger] s1.contains(j) implies !tree_set(
                    *near,
                ).contains(j) by {
                    if j != i as int {
                        assert(s.contains(j));
                        assert(!tree_set(*tree).contains(j));
                    }
                };
            }
            search_rec(items, near, target, na, dim, k, best, Ghost(s1));
            let ghost s2 = s1.union(tree_set(*near));
            proof {
                assert forall|j: int| #[trigger] s2.contains(j) implies !tree_set(
                    *far,
                ).contains(j) by {
                    if j != i as int && s.contains(j) {
                        assert(!tree_set(*tree).contains(j));
                    }
                };
            }
            let pd = plane_sq(t_ax, split);
            let blen = best.len();
            if blen < k || pd <= best[blen - 1].dist {
                search_rec(items, far, target, na, dim, k, best, Ghost(s2));
                proof {
                    assert(s2.union(tree_set(*far)) =~= s.union(tree_set(*tree)));
                }
            } else {
                proof {
                    let csf = best@;
                    let sf = s2.union(tree_set(*far));
                    assert(csf.len() == k as int);
                    assert(s2.len() >= k as int);
                    assert(s2.subset_of(sf));
                    lemma_len_subset(s2, sf);
                    assert(sf.len() >= k as int);
                    assert(csf.len() == min_int(k as int, sf.len() as int));
                    // every vector on the far side is at least as far as
                    // the splitting plane, which beats no kept candidate
                    assert forall|j: int| #[trigger] tree_set(*far).contains(j) implies dist_of(
                        items@,
                        target@,
                        j,
                    ) >= pd as int by {
                        assert(0 <= j < items@.len());
                        lemma_sqd_prefix_term(
                            target@,
                            items@[j].embeddings@,
                            axis as int,
                            target@.len() as int,
                        );
                        lemma_sq_between(
                            t_ax as int,
                            split as int,
                            items@[j].embeddings@[axis as int] as int,
                        );
                    };
                    assert forall|j: int, q: int|
                        #[trigger] sf.contains(j) && !cands_contain(csf, j) && 0 <= q
                            < csf.len() implies key_lt(
                        items@,
                        target@,
                        #[trigger] cidx(csf, q),
                        j,
                    ) by {
                        if s2.contains(j) {
                            assert(key_lt(items@, target@, cidx(csf, q), j));
                        } else {
                            assert(tree_set(*far).contains(j));
                            assert(dist_of(items@, target@, j) >= pd as int);
                            assert(csf[k - 1].dist as int == dist_of(
                                items@,
                                target@,
                                cidx(csf, k - 1),
                            ));
                            if q < k - 1 {
                                assert(key_lt(items@, target@, cidx(csf, q), cidx(csf, k - 1)));
                            }
                        }
                    };
                    assert forall|q: int| 0 <= q < csf.len() implies sf.contains(
                        #[trigger] cidx(csf, q),
                    ) by {
                        assert(s2.contains(cidx(csf, q)));
                    };
                    assert(topk(items@, target@, k as int, sf, csf));
                    assert(sf =~= s.union(tree_set(*tree)));
                }
            }
        },
    }
}

} // verus!
