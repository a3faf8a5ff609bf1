//! The k-d tree: a binary tree of indices into the stored vector batch.
//!
//! Each node splits its subset of vectors by the median along one axis;
//! axes cycle with depth. Well-formedness (`wf_tree`) carries the axis
//! partition invariant: everything in the left subtree has split-axis
//! coordinate at most the node's, everything in the right subtree at
//! least the node's. The median is found by sorting the node's index list
//! with a deterministic tie-break — equal coordinates order by index, so
//! among equals the earlier vectors go left.

use vstd::prelude::*;

use crate::catalog::EmbeddedBook;
use crate::catalog::uniform_dim;
use vstd::pervasive::VecAdditionalExecFns;

verus! {

broadcast use vstd::set::group_set_axioms;

#[derive(Debug)]
pub enum Tree {
    Leaf,
    Node { idx: usize, left: Box<Tree>, right: Box<Tree> },
}

/// The set of vector indices stored in a subtree.
pub open spec fn tree_set(t: Tree) -> Set<int>
    decreases t,
{
    match t {
        Tree::Leaf => Set::empty(),
        Tree::Node { idx, left, right } => tree_set(*left).union(tree_set(*right)).insert(
            idx as int,
        ),
    }
}

/// The number of nodes in a subtree.
pub open spec fn tree_count(t: Tree) -> nat
    decreases t,
{
    match t {
        Tree::Leaf => 0,
        Tree::Node { idx, left, right } => tree_count(*left) + tree_count(*right) + 1,
    }
}

/// The split axis one level deeper: axes cycle through `0 .. dim`.
pub open spec fn next_axis(axis: int, dim: int) -> int {
    if axis + 1 == dim {
        0
    } else {
        axis + 1
    }
}

/// Well-formed subtree at the given split axis: indices in range and
/// pairwise distinct, and the axis partition invariant at every node.
pub open spec fn wf_tree(t: Tree, items: Seq<EmbeddedBook>, axis: int, dim: int) -> bool
    decreases t,
{
    match t {
        Tree::Leaf => true,
        Tree::Node { idx, left, right } => {
            &&& (idx as int) < items.len()
            &&& wf_tree(*left, items, next_axis(axis, dim), dim)
            &&& wf_tree(*right, items, next_axis(axis, dim), dim)
            &&& !tree_set(*left).contains(idx as int)
            &&& !tree_set(*right).contains(idx as int)
            &&& tree_set(*left).disjoint(tree_set(*right))
            &&& (forall|j: int|
                #[trigger] tree_set(*left).contains(j) ==> 0 <= j < items.len()
                    && items[j].embeddings@[axis] <= items[idx as int].embeddings@[axis])
            &&& (forall|j: int|
                #[trigger] tree_set(*right).contains(j) ==> 0 <= j < items.len()
                    && items[j].embeddings@[axis] >= items[idx as int].embeddings@[axis])
        },
    }
}

pub proof fn lemma_tree_set_finite(t: Tree)
    ensures
        tree_set(t).finite(),
    decreases t,
{
    match t {
        Tree::Leaf => {},
        Tree::Node { idx, left, right } => {
            lemma_tree_set_finite(*left);
            lemma_tree_set_finite(*right);
        },
    }
}

/// The build-time order on indices at one axis: by coordinate, ties by
/// index, so the order is strict and total over distinct indices.
pub open spec fn build_lt(items: Seq<EmbeddedBook>, axis: int, i: int, j: int) -> bool {
    items[i].embeddings@[axis] < items[j].embeddings@[axis] || (items[i].embeddings@[axis]
        == items[j].embeddings@[axis] && i < j)
}

/// The set of indices held by a list.
pub open spec fn idx_set(s: Seq<usize>) -> Set<int> {
    Set::new(|j: int| exists|p: int| 0 <= p < s.len() && #[trigger] s[p] as int == j)
}

fn lt_exec(items: &Vec<EmbeddedBook>, axis: usize, a: usize, b: usize) -> (r: bool)
    requires
        (a as int) < items@.len(),
        (b as int) < items@.len(),
        (axis as int) < items@[a as int].embeddings@.len(),
        (axis as int) < items@[b as int].embeddings@.len(),
    ensures
        r == build_lt(items@, axis as int, a as int, b as int),
{
    let ea = items[a].embeddings[axis];
    let eb = items[b].embeddings[axis];
    ea < eb || (ea == eb && a < b)
}

/// Swapping two positions permutes a list: same length, same members,
/// duplicates neither made nor lost.
proof fn lemma_swap_props(s: Seq<usize>, i: int, j: int)
    requires
        0 <= i < j < s.len(),
    ensures
        forall|x: int| idx_set(s.update(j, s[i]).update(i, s[j])).contains(x) <==> idx_set(
            s,
        ).contains(x),
        s.no_duplicates() ==> s.update(j, s[i]).update(i, s[j]).no_duplicates(),
{
    let s2 = s.update(j, s[i]).update(i, s[j]);
    assert forall|x: int| idx_set(s2).contains(x) implies idx_set(s).contains(x) by {
        let p = choose|p: int| 0 <= p < s2.len() && #[trigger] s2[p] as int == x;
        if p == i {
            assert(s[j] as int == x);
        } else if p == j {
            assert(s[i] as int == x);
        } else {
            assert(s[p] as int == x);
        }
    };
    assert forall|x: int| idx_set(s).contains(x) implies idx_set(s2).contains(x) by {
        let p = choose|p: int| 0 <= p < s.len() && #[trigger] s[p] as int == x;
        if p == i {
            assert(s2[j] as int == x);
        } else if p == j {
            assert(s2[i] as int == x);
        } else {
            assert(s2[p] as int == x);
        }
    };
}

/// Sort a list of indices by the build-time order at one axis.
pub(crate) fn sort_by_axis(items: &Vec<EmbeddedBook>, v: &mut Vec<usize>, axis: usize, dim: usize)
    requires
        dim >= 1,
        (axis as int) < dim as int,
        uniform_dim(items@, dim as int),
        forall|p: int| 0 <= p < old(v)@.len() ==> (#[trigger] old(v)@[p] as int) < items@.len(),
        old(v)@.no_duplicates(),
    ensures
        final(v)@.len() == old(v)@.len(),
        forall|p: int| 0 <= p < final(v)@.len() ==> (#[trigger] final(v)@[p] as int) < items@.len(),
        final(v)@.no_duplicates(),
        forall|p: int, q: int|
            0 <= p < q < final(v)@.len() ==> build_lt(
                items@,
                axis as int,
                final(v)@[p] as int,
                final(v)@[q] as int,
            ),
        forall|x: int| idx_set(final(v)@).contains(x) <==> idx_set(old(v)@).contains(x),
{
    let ghost orig = v@;
    let n = v.len();
    if n <= 1 {
        return ;
    }
    let mut i: usize = 1;
    while i < n
        invariant
            n == v@.len(),
            orig.len() == n,
            1 <= i <= n,
            dim >= 1,
            (axis as int) < dim as int,
            uniform_dim(items@, dim as int),
            forall|p: int| 0 <= p < v@.len() ==> (#[trigger] v@[p] as int) < items@.len(),
            v@.no_duplicates(),
            forall|p: int, q: int|
                0 <= p < q < i ==> build_lt(items@, axis as int, v@[p] as int, v@[q] as int),
            forall|x: int| idx_set(v@).contains(x) <==> idx_set(orig).contains(x),
        decreases n - i,
    {
        let mut j: usize = i;
        while j > 0 && lt_exec(items, axis, v[j], v[j - 1])
            invariant
                n == v@.len(),
                orig.len() == n,
                j <= i < n,
                dim >= 1,
                (axis as int) < dim as int,
                uniform_dim(items@, dim as int),
                forall|p: int| 0 <= p < v@.len() ==> (#[trigger] v@[p] as int) < items@.len(),
                v@.no_duplicates(),
                forall|p: int, q: int|
                    0 <= p < q <= i && p != j && q != j ==> build_lt(
                        items@,
                        axis as int,
                        v@[p] as int,
                        v@[q] as int,
                    ),
                forall|q: int|
                    j < q <= i ==> build_lt(items@, axis as int, v@[j as int] as int, v@[q] as int),
                forall|x: int| idx_set(v@).contains(x) <==> idx_set(orig).contains(x),
            decreases j,
        {
            let ghost before = v@;
            let a = v[j];
            let b = v[j - 1];
            v.set(j, b);
            v.set(j - 1, a);
            proof {
                lemma_swap_props(before, j - 1, j as int);
                assert(v@ == before.update(j as int, before[j - 1]).update(j - 1, before[j as int]));
            }
            j = j - 1;
        }
        proof {
            if j > 0 {
                // loop left because the pair at the boundary is in order
                assert(v@[j - 1] != v@[j as int]);
                assert(build_lt(items@, axis as int, v@[j - 1] as int, v@[j as int] as int));
            }
            assert forall|p: int, q: int| 0 <= p < q <= i implies build_lt(
                items@,
                axis as int,
                v@[p] as int,
                v@[q] as int,
            ) by {
                if p == j as int && q > j {
                } else if q == j as int && p < j {
                    assert(p <= j - 1);
                    if p < j - 1 {
                        assert(build_lt(items@, axis as int, v@[p] as int, v@[j - 1] as int));
                    }
                }
            };
        }
        i = i + 1;
    }
}

/// Copy the half-open range `lo .. hi` of a list.
fn copy_range(v: &Vec<usize>, lo: usize, hi: usize) -> (r: Vec<usize>)
    requires
        lo <= hi,
        (hi as int) <= v@.len(),
    ensures
        r@ == v@.subrange(lo as int, hi as int),
{
    let mut r: Vec<usize> = Vec::new();
    let mut i = lo;
    while i < hi
        invariant
            lo <= i <= hi,
            (hi as int) <= v@.len(),
            r@ =~= v@.subrange(lo as int, i as int),
        decreases hi - i,
    {
        r.push(v[i]);
        i = i + 1;
        proof {
            assert(r@ =~= v@.subrange(lo as int, i as int));
        }
    }
    r
}

/// Build a subtree over the given indices, splitting on `axis` first.
///
/// The sorted list is split at the middle: the median becomes the node,
/// earlier entries (smaller coordinate, or equal with smaller index — ties
/// go left) form the left subtree, later entries the right.
pub(crate) fn build_rec(items: &Vec<EmbeddedBook>, idxs: Vec<usize>, axis: usize, dim: usize) -> (t:
    Tree)
    requires
        dim >= 1,
        (axis as int) < dim as int,
        uniform_dim(items@, dim as int),
        forall|p: int| 0 <= p < idxs@.len() ==> (#[trigger] idxs@[p] as int) < items@.len(),
        idxs@.no_duplicates(),
    ensures
        wf_tree(t, items@, axis as int, dim as int),
        tree_count(t) == idxs@.len(),
        tree_set(t) == idx_set(idxs@),
    decreases idxs@.len(),
{
    let mut v = idxs;
    if v.len() == 0 {
        proof {
            assert(tree_set(Tree::Leaf) =~= idx_set(idxs@));
        }
        return Tree::Leaf;
    }
    sort_by_axis(items, &mut v, axis, dim);
    let m = v.len() / 2;
    let pivot = v[m];
    let left_v = copy_range(&v, 0, m);
    let right_v = copy_range(&v, m + 1, v.len());
    let na = if axis + 1 == dim {
        0
    } else {
        axis + 1
    };
    proof {
        assert(left_v@.no_duplicates());
        assert(right_v@.no_duplicates());
        assert(forall|p: int|
            0 <= p < left_v@.len() ==> (#[trigger] left_v@[p] as int) < items@.len());
        assert(forall|p: int|
            0 <= p < right_v@.len() ==> (#[trigger] right_v@[p] as int) < items@.len());
    }
    let lt = build_rec(items, left_v, na, dim);
    let rt = build_rec(items, right_v, na, dim);
    let ghost lv = v@.subrange(0, m as int);
    let ghost rv = v@.subrange(m + 1, v@.len() as int);
    proof {
        // members of each side and where they sit in the sorted list
        assert forall|j: int| #[trigger] tree_set(lt).contains(j) implies 0 <= j < items@.len()
            && items@[j].embeddings@[axis as int]
            <= items@[pivot as int].embeddings@[axis as int] && build_lt(
            items@,
            axis as int,
            j,
            pivot as int,
        ) by {
            let p = choose|p: int| 0 <= p < lv.len() && #[trigger] lv[p] as int == j;
            assert(lv[p] == v@[p]);
            assert(build_lt(items@, axis as int, v@[p] as int, v@[m as int] as int));
        };
        assert forall|j: int| #[trigger] tree_set(rt).contains(j) implies 0 <= j < items@.len()
            && items@[j].embeddings@[axis as int]
            >= items@[pivot as int].embeddings@[axis as int] && build_lt(
            items@,
            axis as int,
            pivot as int,
            j,
        ) by {
            let p = choose|p: int| 0 <= p < rv.len() && #[trigger] rv[p] as int == j;
            assert(rv[p] == v@[p + m + 1]);
            assert(build_lt(items@, axis as int, v@[m as int] as int, v@[p + m + 1] as int));
        };
        assert(!tree_set(lt).contains(pivot as int));
        assert(!tree_set(rt).contains(pivot as int));
        assert forall|j: int| tree_set(lt).contains(j) implies !tree_set(rt).contains(j) by {
            if tree_set(rt).contains(j) {
                assert(build_lt(items@, axis as int, j, pivot as int));
                assert(build_lt(items@, axis as int, pivot as int, j));
                assert(false);
            }
        };
        assert(tree_set(lt).disjoint(tree_set(rt)));
    }
    let t = Tree::Node { idx: pivot, left: Box::new(lt), right: Box::new(rt) };
    proof {
        assert(tree_count(t) == idxs@.len());
        assert forall|j: int| tree_set(t).contains(j) implies idx_set(idxs@).contains(j) by {
            if tree_set(lt).contains(j) {
                let p = choose|p: int| 0 <= p < lv.len() && #[trigger] lv[p] as int == j;
                assert(v@[p] as int == j);
                assert(idx_set(v@).contains(j));
            } else if tree_set(rt).contains(j) {
                let p = choose|p: int| 0 <= p < rv.len() && #[trigger] rv[p] as int == j;
                assert(v@[p + m + 1] as int == j);
                assert(idx_set(v@).contains(j));
            } else {
                assert(j == pivot as int);
                assert(v@[m as int] as int == j);
                assert(idx_set(v@).contains(j));
            }
        };
        assert forall|j: int| idx_set(idxs@).contains(j) implies tree_set(t).contains(j) by {
            assert(idx_set(v@).contains(j));
            let p = choose|p: int| 0 <= p < v@.len() && #[trigger] v@[p] as int == j;
            if p < m {
                assert(lv[p] as int == j);
                assert(idx_set(lv).contains(j));
            } else if p == m {
                assert(j == pivot as int);
            } else {
                assert(rv[p - m - 1] as int == j);
                assert(idx_set(rv).contains(j));
            }
        };
        assert(tree_set(t) =~= idx_set(idxs@));
    }
    t
}

} // verus!
