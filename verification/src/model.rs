//! The mathematical model of the arena tree: well-formedness of the arena,
//! subtree membership, and the recursive definitions of the three queries
//! (key sum, strict BST ordering, maximum path sum).

use crate::tree::Node;
use vstd::prelude::*;

verus! {

/// The child links of the node at index `i` point strictly forward, to nodes
/// of the same arena.
pub open spec fn links_forward(s: Seq<Node>, i: int) -> bool {
    &&& (s[i].id_left matches Some(l) ==> i < l < s.len())
    &&& (s[i].id_right matches Some(r) ==> i < r < s.len())
}

/// The arena is well formed: every child link refers to a node of the same
/// arena, at a strictly larger index.  Trees built through the public
/// constructors and `add_node` always satisfy this.
pub open spec fn well_formed(s: Seq<Node>) -> bool {
    forall|i: int| 0 <= i < s.len() ==> #[trigger] links_forward(s, i)
}

/// What a successful attachment does to the arena: exactly one childless node
/// with the given key is appended at index `child_id`, the selected child slot
/// of the parent now holds that index, and every other node (and the parent's
/// key and other slot) is unchanged.
pub open spec fn attached(
    pre: Seq<Node>,
    post: Seq<Node>,
    parent_id: usize,
    key: u32,
    is_left: bool,
    child_id: usize,
) -> bool {
    &&& child_id == pre.len()
    &&& post.len() == pre.len() + 1
    &&& post[child_id as int].key == key
    &&& post[child_id as int].id_left is None
    &&& post[child_id as int].id_right is None
    &&& post[parent_id as int].key == pre[parent_id as int].key
    &&& (is_left ==> post[parent_id as int].id_left == Some(child_id) && post[parent_id as int].id_right
        == pre[parent_id as int].id_right)
    &&& (!is_left ==> post[parent_id as int].id_right == Some(child_id)
        && post[parent_id as int].id_left == pre[parent_id as int].id_left)
    &&& (forall|i: int| 0 <= i < pre.len() && i != parent_id ==> post[i] == pre[i])
}

/// The sum of the keys of the subtree rooted at index `i`.
pub open spec fn subtree_sum(s: Seq<Node>, i: int) -> int
    decreases s.len() - i
        when well_formed(s) && 0 <= i < s.len()
{
    proof {
        assert(links_forward(s, i));
    }
    (s[i].key as int) + (match s[i].id_left {
        Some(l) => subtree_sum(s, l as int),
        None => 0,
    }) + (match s[i].id_right {
        Some(r) => subtree_sum(s, r as int),
        None => 0,
    })
}

/// The sum of all keys of the tree: the sum over the root's subtree, or zero
/// for an empty arena.
pub open spec fn tree_sum(s: Seq<Node>) -> int {
    if s.len() == 0 {
        0
    } else {
        subtree_sum(s, 0)
    }
}

/// The sum of the subtree a child link points to; an absent link contributes
/// nothing.
pub open spec fn link_sum(s: Seq<Node>, link: Option<usize>) -> int {
    match link {
        Some(id) => subtree_sum(s, id as int),
        None => 0,
    }
}

/// The node at index `j` belongs to the subtree rooted at index `i` (a node
/// belongs to its own subtree).
pub open spec fn in_subtree(s: Seq<Node>, i: int, j: int) -> bool
    decreases s.len() - i
        when well_formed(s) && 0 <= i < s.len()
{
    proof {
        assert(links_forward(s, i));
    }
    ||| j == i
    ||| (s[i].id_left matches Some(l) && in_subtree(s, l as int, j))
    ||| (s[i].id_right matches Some(r) && in_subtree(s, r as int, j))
}

/// The node at index `n` belongs to the tree (the subtree of the root).
pub open spec fn in_tree(s: Seq<Node>, n: int) -> bool {
    0 < s.len() && 0 <= n < s.len() && in_subtree(s, 0, n)
}

/// The least of three integers.
pub open spec fn min3(a: int, b: int, c: int) -> int {
    vstd::math::min(vstd::math::min(a, b), c)
}

/// The greatest of three integers.
pub open spec fn max3(a: int, b: int, c: int) -> int {
    vstd::math::max(vstd::math::max(a, b), c)
}

/// The least key of the subtree rooted at index `i` (an absent child
/// contributes the node's own key, which is always present).
pub open spec fn subtree_min(s: Seq<Node>, i: int) -> int
    decreases s.len() - i
        when well_formed(s) && 0 <= i < s.len()
{
    proof {
        assert(links_forward(s, i));
    }
    min3(
        s[i].key as int,
        match s[i].id_left {
            Some(l) => subtree_min(s, l as int),
            None => s[i].key as int,
        },
        match s[i].id_right {
            Some(r) => subtree_min(s, r as int),
            None => s[i].key as int,
        },
    )
}

/// The greatest key of the subtree rooted at index `i`.
pub open spec fn subtree_max(s: Seq<Node>, i: int) -> int
    decreases s.len() - i
        when well_formed(s) && 0 <= i < s.len()
{
    proof {
        assert(links_forward(s, i));
    }
    max3(
        s[i].key as int,
        match s[i].id_left {
            Some(l) => subtree_max(s, l as int),
            None => s[i].key as int,
        },
        match s[i].id_right {
            Some(r) => subtree_max(s, r as int),
            None => s[i].key as int,
        },
    )
}

/// Every key of the subtree rooted at `i` lies strictly below `bound`.
pub open spec fn keys_below(s: Seq<Node>, i: int, bound: u32) -> bool {
    forall|j: int| 0 <= j < s.len() && #[trigger] in_subtree(s, i, j) ==> s[j].key < bound
}

/// Every key of the subtree rooted at `i` lies strictly above `bound`.
pub open spec fn keys_above(s: Seq<Node>, i: int, bound: u32) -> bool {
    forall|j: int| 0 <= j < s.len() && #[trigger] in_subtree(s, i, j) ==> s[j].key > bound
}

/// The strict binary-search-tree property of the subtree rooted at `i`: every
/// key of its left subtree is strictly less than its key, every key of its
/// right subtree strictly greater, and the same holds at every descendant.
/// Equal keys on an ancestor/descendant line therefore rule it out.
pub open spec fn bst_at(s: Seq<Node>, i: int) -> bool
    decreases s.len() - i
        when well_formed(s) && 0 <= i < s.len()
{
    proof {
        assert(links_forward(s, i));
    }
    &&& (s[i].id_left matches Some(l) ==> bst_at(s, l as int) && keys_below(s, l as int, s[i].key))
    &&& (s[i].id_right matches Some(r) ==> bst_at(s, r as int) && keys_above(
        s,
        r as int,
        s[i].key,
    ))
}

/// The whole tree is a strict binary search tree; an empty tree is one
/// vacuously.
pub open spec fn bst(s: Seq<Node>) -> bool {
    s.len() == 0 || bst_at(s, 0)
}

/// The ordering demanded of the node at `n` alone: its key bounds all keys of
/// its child subtrees strictly from above and below respectively.
pub open spec fn ordered_at(s: Seq<Node>, n: int) -> bool {
    &&& (s[n].id_left matches Some(l) ==> keys_below(s, l as int, s[n].key))
    &&& (s[n].id_right matches Some(r) ==> keys_above(s, r as int, s[n].key))
}

/// The flat form of the binary-search-tree property: every node of the tree
/// satisfies the ordering demand.  Equivalent to `bst` on well-formed arenas
/// (see `laws::lemma_bst_iff_ordered`).
pub open spec fn ordered(s: Seq<Node>) -> bool {
    forall|n: int| in_tree(s, n) ==> #[trigger] ordered_at(s, n)
}

/// The greatest sum of keys along a downward path that starts at index `i`
/// and never branches.  An absent child offers no extension, hence zero.
pub open spec fn down_best(s: Seq<Node>, i: int) -> int
    decreases s.len() - i
        when well_formed(s) && 0 <= i < s.len()
{
    proof {
        assert(links_forward(s, i));
    }
    (s[i].key as int) + vstd::math::max(
        match s[i].id_left {
            Some(l) => down_best(s, l as int),
            None => 0,
        },
        match s[i].id_right {
            Some(r) => down_best(s, r as int),
            None => 0,
        },
    )
}

/// The best path whose elbow — the one node where it may use both children —
/// is the node at `n`: that node's key plus the best downward extension into
/// each of its child subtrees.
pub open spec fn elbow_sum(s: Seq<Node>, n: int) -> int {
    (s[n].key as int) + (match s[n].id_left {
        Some(l) => down_best(s, l as int),
        None => 0,
    }) + (match s[n].id_right {
        Some(r) => down_best(s, r as int),
        None => 0,
    })
}

/// The greatest sum of keys along any simple path within the subtree rooted
/// at `i` that joins a downward branch into the left subtree and one into the
/// right subtree at a single elbow node.  Equals the best `elbow_sum` over the
/// subtree's nodes (see `laws::lemma_path_best_is_best_elbow`).
pub open spec fn path_best(s: Seq<Node>, i: int) -> int
    decreases s.len() - i
        when well_formed(s) && 0 <= i < s.len()
{
    proof {
        assert(links_forward(s, i));
    }
    max3(
        match s[i].id_left {
            Some(l) => path_best(s, l as int),
            None => 0,
        },
        match s[i].id_right {
            Some(r) => path_best(s, r as int),
            None => 0,
        },
        elbow_sum(s, i),
    )
}

/// The maximum path sum of the whole tree: the best joined path anywhere in
/// the root's subtree, or zero for an empty tree.
pub open spec fn max_path(s: Seq<Node>) -> int {
    if s.len() == 0 {
        0
    } else {
        path_best(s, 0)
    }
}

} // verus!
