//! Laws relating the tree queries to the model, proved once and for all.

use crate::model::bst;
use crate::model::bst_at;
use crate::model::down_best;
use crate::model::elbow_sum;
use crate::model::in_subtree;
use crate::model::in_tree;
use crate::model::links_forward;
use crate::model::max_path;
use crate::model::ordered;
use crate::model::ordered_at;
use crate::model::path_best;
use crate::model::subtree_max;
use crate::model::subtree_min;
use crate::model::subtree_sum;
use crate::model::tree_sum;
use crate::model::well_formed;
use crate::tree::Node;
use vstd::prelude::*;

verus! {

/// The sum of an empty tree is zero.
pub proof fn lemma_sum_empty(s: Seq<Node>)
    requires
        s.len() == 0,
    ensures
        tree_sum(s) == 0,
{
}

/// The sum of a one-node tree is its root's key.  (A well-formed one-node
/// arena cannot hold any child link.)
pub proof fn lemma_sum_single(s: Seq<Node>)
    requires
        well_formed(s),
        s.len() == 1,
    ensures
        tree_sum(s) == s[0].key,
{
    assert(links_forward(s, 0));
}

/// An empty tree is a strict binary search tree, vacuously.
pub proof fn lemma_bst_empty(s: Seq<Node>)
    requires
        s.len() == 0,
    ensures
        bst(s),
{
}

/// A one-node tree is a strict binary search tree.
pub proof fn lemma_bst_single(s: Seq<Node>)
    requires
        well_formed(s),
        s.len() == 1,
    ensures
        bst(s),
{
    assert(links_forward(s, 0));
}

/// The maximum path sum of an empty tree is zero.
pub proof fn lemma_max_path_empty(s: Seq<Node>)
    requires
        s.len() == 0,
    ensures
        max_path(s) == 0,
{
}

/// The maximum path sum of a one-node tree is its root's key.
pub proof fn lemma_max_path_single(s: Seq<Node>)
    requires
        well_formed(s),
        s.len() == 1,
    ensures
        max_path(s) == s[0].key,
{
    assert(links_forward(s, 0));
}

/// The recursive BST property of a subtree coincides with the flat demand
/// that every node of that subtree is ordered against its own child subtrees.
pub proof fn lemma_bst_at_iff_ordered_below(s: Seq<Node>, i: int)
    requires
        well_formed(s),
        0 <= i < s.len(),
    ensures
        bst_at(s, i) <==> (forall|n: int|
            0 <= n < s.len() && #[trigger] in_subtree(s, i, n) ==> ordered_at(s, n)),
    decreases s.len() - i,
{
    assert(links_forward(s, i));
    match s[i].id_left {
        Some(l) => lemma_bst_at_iff_ordered_below(s, l as int),
        None => (),
    }
    match s[i].id_right {
        Some(r) => lemma_bst_at_iff_ordered_below(s, r as int),
        None => (),
    }
    if bst_at(s, i) {
        assert forall|n: int| 0 <= n < s.len() && #[trigger] in_subtree(s, i, n) implies ordered_at(
            s,
            n,
        ) by {
            assert(in_subtree(s, i, n) == (n == i || (s[i].id_left matches Some(l) && in_subtree(
                s,
                l as int,
                n,
            )) || (s[i].id_right matches Some(r) && in_subtree(s, r as int, n))));
        }
    }
    if forall|n: int| 0 <= n < s.len() && #[trigger] in_subtree(s, i, n) ==> ordered_at(s, n) {
        assert(in_subtree(s, i, i));
        assert(ordered_at(s, i));
        match s[i].id_left {
            Some(l) => {
                assert forall|n: int|
                    0 <= n < s.len() && #[trigger] in_subtree(s, l as int, n) implies ordered_at(
                    s,
                    n,
                ) by {
                    assert(in_subtree(s, i, n));
                }
                assert(bst_at(s, l as int));
            },
            None => (),
        }
        match s[i].id_right {
            Some(r) => {
                assert forall|n: int|
                    0 <= n < s.len() && #[trigger] in_subtree(s, r as int, n) implies ordered_at(
                    s,
                    n,
                ) by {
                    assert(in_subtree(s, i, n));
                }
                assert(bst_at(s, r as int));
            },
            None => (),
        }
        assert(bst_at(s, i));
    }
}

/// A well-formed tree is a strict binary search tree exactly when every node
/// of the tree keeps all left-subtree keys strictly below its own key and all
/// right-subtree keys strictly above it.  In particular, a key placed
/// anywhere in violation of that ordering refutes `bst`.
pub proof fn lemma_bst_iff_ordered(s: Seq<Node>)
    requires
        well_formed(s),
    ensures
        bst(s) <==> ordered(s),
{
    if s.len() == 0 {
        assert(ordered(s));
    } else {
        lemma_bst_at_iff_ordered_below(s, 0);
        if bst_at(s, 0) {
            assert forall|n: int| in_tree(s, n) implies #[trigger] ordered_at(s, n) by {
                assert(in_subtree(s, 0, n));
            }
        }
        if ordered(s) {
            assert forall|n: int| 0 <= n < s.len() && #[trigger] in_subtree(s, 0, n) implies
                ordered_at(s, n) by {
                assert(in_tree(s, n));
            }
        }
    }
}

/// Two equal keys in an ancestor/descendant relation rule out the BST
/// property: the descendant sits in one of the ancestor's child subtrees,
/// whose keys a BST keeps strictly apart from the ancestor's key.
pub proof fn lemma_duplicate_not_bst(s: Seq<Node>, a: int, d: int)
    requires
        well_formed(s),
        in_tree(s, a),
        0 <= d < s.len(),
        in_subtree(s, a, d),
        d != a,
        s[a].key == s[d].key,
    ensures
        !bst(s),
{
    if bst(s) {
        lemma_bst_iff_ordered(s);
        assert(0 <= a < s.len());
        assert(links_forward(s, a));
        assert(ordered_at(s, a));
        assert(in_subtree(s, a, d) == (d == a || (s[a].id_left matches Some(l) && in_subtree(
            s,
            l as int,
            d,
        )) || (s[a].id_right matches Some(r) && in_subtree(s, r as int, d))));
        assert(false);
    }
}

/// `subtree_min` and `subtree_max` are exactly the least and greatest keys of
/// a subtree: they bound every key in it, and each is attained by some node.
pub proof fn lemma_subtree_extrema(s: Seq<Node>, i: int)
    requires
        well_formed(s),
        0 <= i < s.len(),
    ensures
        in_subtree(s, i, i),
        forall|j: int|
            0 <= j < s.len() && #[trigger] in_subtree(s, i, j) ==> subtree_min(s, i) <= s[j].key
                && s[j].key <= subtree_max(s, i),
        exists|j: int|
            0 <= j < s.len() && #[trigger] in_subtree(s, i, j) && s[j].key == subtree_min(s, i),
        exists|j: int|
            0 <= j < s.len() && #[trigger] in_subtree(s, i, j) && s[j].key == subtree_max(s, i),
    decreases s.len() - i,
{
    assert(links_forward(s, i));
    assert(in_subtree(s, i, i));
    match s[i].id_left {
        Some(l) => lemma_subtree_extrema(s, l as int),
        None => (),
    }
    match s[i].id_right {
        Some(r) => lemma_subtree_extrema(s, r as int),
        None => (),
    }
    assert forall|j: int| 0 <= j < s.len() && #[trigger] in_subtree(s, i, j) implies subtree_min(
        s,
        i,
    ) <= s[j].key && s[j].key <= subtree_max(s, i) by {
        assert(in_subtree(s, i, j) == (j == i || (s[i].id_left matches Some(l) && in_subtree(
            s,
            l as int,
            j,
        )) || (s[i].id_right matches Some(r) && in_subtree(s, r as int, j))));
    }
    if subtree_min(s, i) != s[i].key {
        match s[i].id_left {
            Some(l) => {
                if subtree_min(s, i) == subtree_min(s, l as int) {
                    let jw = choose|j: int|
                        0 <= j < s.len() && #[trigger] in_subtree(s, l as int, j) && s[j].key
                            == subtree_min(s, l as int);
                    assert(in_subtree(s, i, jw));
                }
            },
            None => (),
        }
        match s[i].id_right {
            Some(r) => {
                if subtree_min(s, i) == subtree_min(s, r as int) {
                    let jw = choose|j: int|
                        0 <= j < s.len() && #[trigger] in_subtree(s, r as int, j) && s[j].key
                            == subtree_min(s, r as int);
                    assert(in_subtree(s, i, jw));
                }
            },
            None => (),
        }
    }
    if subtree_max(s, i) != s[i].key {
        match s[i].id_left {
            Some(l) => {
                if subtree_max(s, i) == subtree_max(s, l as int) {
                    let jw = choose|j: int|
                        0 <= j < s.len() && #[trigger] in_subtree(s, l as int, j) && s[j].key
                            == subtree_max(s, l as int);
                    assert(in_subtree(s, i, jw));
                }
            },
            None => (),
        }
        match s[i].id_right {
            Some(r) => {
                if subtree_max(s, i) == subtree_max(s, r as int) {
                    let jw = choose|j: int|
                        0 <= j < s.len() && #[trigger] in_subtree(s, r as int, j) && s[j].key
                            == subtree_max(s, r as int);
                    assert(in_subtree(s, i, jw));
                }
            },
            None => (),
        }
    }
}

/// Both maximum-path quantities are bounded by the subtree sum, the best
/// downward branch carries at least the root key, and the best path sum is
/// nonnegative — the facts that keep the traversal's arithmetic in range.
pub proof fn lemma_path_bounds(s: Seq<Node>, i: int)
    requires
        well_formed(s),
        0 <= i < s.len(),
    ensures
        s[i].key <= down_best(s, i),
        down_best(s, i) <= subtree_sum(s, i),
        0 <= path_best(s, i),
        path_best(s, i) <= subtree_sum(s, i),
    decreases s.len() - i,
{
    assert(links_forward(s, i));
    lemma_subtree_sum_nonneg(s, i);
    match s[i].id_left {
        Some(l) => {
            lemma_path_bounds(s, l as int);
            lemma_subtree_sum_nonneg(s, l as int);
        },
        None => (),
    }
    match s[i].id_right {
        Some(r) => {
            lemma_path_bounds(s, r as int);
            lemma_subtree_sum_nonneg(s, r as int);
        },
        None => (),
    }
}

/// `path_best` is exactly the maximum of `elbow_sum` over the nodes of the
/// subtree: it dominates every node's elbow sum and is attained at one of
/// them.  This pins the recursive computation to the flat reading "the best
/// path, joined at whichever node serves it as elbow".
pub proof fn lemma_path_best_is_best_elbow(s: Seq<Node>, i: int)
    requires
        well_formed(s),
        0 <= i < s.len(),
    ensures
        forall|n: int|
            0 <= n < s.len() && #[trigger] in_subtree(s, i, n) ==> elbow_sum(s, n) <= path_best(
                s,
                i,
            ),
        exists|n: int|
            0 <= n < s.len() && #[trigger] in_subtree(s, i, n) && elbow_sum(s, n) == path_best(
                s,
                i,
            ),
    decreases s.len() - i,
{
    assert(links_forward(s, i));
    assert(in_subtree(s, i, i));
    match s[i].id_left {
        Some(l) => {
            lemma_path_best_is_best_elbow(s, l as int);
            lemma_path_bounds(s, l as int);
        },
        None => (),
    }
    match s[i].id_right {
        Some(r) => {
            lemma_path_best_is_best_elbow(s, r as int);
            lemma_path_bounds(s, r as int);
        },
        None => (),
    }
    assert forall|n: int| 0 <= n < s.len() && #[trigger] in_subtree(s, i, n) implies elbow_sum(
        s,
        n,
    ) <= path_best(s, i) by {
        assert(in_subtree(s, i, n) == (n == i || (s[i].id_left matches Some(l) && in_subtree(
            s,
            l as int,
            n,
        )) || (s[i].id_right matches Some(r) && in_subtree(s, r as int, n))));
    }
    if path_best(s, i) != elbow_sum(s, i) {
        match s[i].id_left {
            Some(l) => {
                if path_best(s, i) == path_best(s, l as int) {
                    let nw = choose|n: int|
                        0 <= n < s.len() && #[trigger] in_subtree(s, l as int, n) && elbow_sum(s, n)
                            == path_best(s, l as int);
                    assert(in_subtree(s, i, nw));
                }
            },
            None => (),
        }
        match s[i].id_right {
            Some(r) => {
                if path_best(s, i) == path_best(s, r as int) {
                    let nw = choose|n: int|
                        0 <= n < s.len() && #[trigger] in_subtree(s, r as int, n) && elbow_sum(s, n)
                            == path_best(s, r as int);
                    assert(in_subtree(s, i, nw));
                }
            },
            None => (),
        }
    }
}

/// For a nonempty tree, the maximum path sum dominates the elbow sum of every
/// node of the tree and is attained at one of them.
pub proof fn lemma_max_path_is_best_elbow(s: Seq<Node>)
    requires
        well_formed(s),
        0 < s.len(),
    ensures
        forall|n: int| in_tree(s, n) ==> #[trigger] elbow_sum(s, n) <= max_path(s),
        exists|n: int| in_tree(s, n) && #[trigger] elbow_sum(s, n) == max_path(s),
{
    lemma_path_best_is_best_elbow(s, 0);
    assert forall|n: int| in_tree(s, n) implies #[trigger] elbow_sum(s, n) <= max_path(s) by {
        assert(in_subtree(s, 0, n));
    }
    let nw = choose|n: int|
        0 <= n < s.len() && #[trigger] in_subtree(s, 0, n) && elbow_sum(s, n) == path_best(s, 0);
    assert(in_tree(s, nw));
}

/// Keys are unsigned, so every subtree sum is at least the root key of the
/// subtree, and in particular nonnegative.
pub proof fn lemma_subtree_sum_nonneg(s: Seq<Node>, i: int)
    requires
        well_formed(s),
        0 <= i < s.len(),
    ensures
        s[i].key <= subtree_sum(s, i),
        0 <= subtree_sum(s, i),
    decreases s.len() - i,
{
    assert(links_forward(s, i));
    if let Some(l) = s[i].id_left {
        lemma_subtree_sum_nonneg(s, l as int);
    }
    if let Some(r) = s[i].id_right {
        lemma_subtree_sum_nonneg(s, r as int);
    }
}

} // verus!
