//! The arena tree itself: node storage, construction, and child attachment.

use crate::laws::lemma_path_bounds;
use crate::laws::lemma_subtree_extrema;
use crate::laws::lemma_subtree_sum_nonneg;
use crate::model::attached;
use crate::model::bst;
use crate::model::bst_at;
use crate::model::down_best;
use crate::model::max_path;
use crate::model::path_best;
use crate::model::in_subtree;
use crate::model::keys_above;
use crate::model::keys_below;
use crate::model::link_sum;
use crate::model::links_forward;
use crate::model::max3;
use crate::model::min3;
use crate::model::subtree_max;
use crate::model::subtree_min;
use crate::model::subtree_sum;
use crate::model::tree_sum;
use crate::model::well_formed;
use vstd::prelude::*;

verus! {

/// One vertex of the tree: a key and two optional child links, each an index
/// into the owning tree's arena.
#[derive(Clone, Copy)]
pub struct Node {
    pub key: u32,
    pub id_left: Option<usize>,
    pub id_right: Option<usize>,
}

impl Node {
    /// A fresh node with the given key and no children.
    fn new(key: u32) -> (n: Node)
        ensures
            n.key == key,
            n.id_left is None,
            n.id_right is None,
    {
        Node { key, id_left: None, id_right: None }
    }
}

/// A binary tree held in a single growable arena.  The node at index 0, if
/// any, is the root; child links are indices into the same arena and always
/// point strictly forward, so the arena of any tree built through this API is
/// `model::well_formed`.
pub struct Tree {
    nodes: Vec<Node>,
}

impl Tree {
    /// The arena as a mathematical sequence of nodes.
    pub closed spec fn arena(self) -> Seq<Node> {
        self.nodes@
    }

    /// The structural invariant every tree built through this API maintains.
    pub open spec fn wf(self) -> bool {
        well_formed(self@)
    }

    /// A tree with no nodes at all.
    pub fn empty() -> (t: Tree)
        ensures
            t.wf(),
            t@.len() == 0,
    {
        Tree { nodes: Vec::new() }
    }

    /// A tree holding exactly one node, the root, with the given key.
    pub fn with_root(key: u32) -> (t: Tree)
        ensures
            t.wf(),
            t@.len() == 1,
            t@[0].key == key,
            t@[0].id_left is None,
            t@[0].id_right is None,
    {
        let mut nodes: Vec<Node> = Vec::new();
        nodes.push(Node::new(key));
        Tree { nodes }
    }

    /// The child slot of the node at `parent_id` selected by `is_left` is
    /// still free, so a new node may be attached there.
    pub open spec fn slot_free(self, parent_id: usize, is_left: bool) -> bool {
        if is_left {
            self@[parent_id as int].id_left is None
        } else {
            self@[parent_id as int].id_right is None
        }
    }

    /// Appends a new childless node with the given key, wires it into the
    /// left (`is_left`) or right child slot of the node at `parent_id`, and
    /// returns the new node's index.  The parent must exist and the selected
    /// slot must still be free; no other node changes.
    pub fn add_node(&mut self, parent_id: usize, key: u32, is_left: bool) -> (child_id: usize)
        requires
            old(self).wf(),
            parent_id < old(self)@.len(),
            old(self).slot_free(parent_id, is_left),
        ensures
            final(self).wf(),
            attached(old(self)@, final(self)@, parent_id, key, is_left, child_id),
    {
        let child_id = self.nodes.len();
        self.nodes.push(Node::new(key));

        let parent = self.nodes[parent_id];
        let rewired = if is_left {
            Node { key: parent.key, id_left: Some(child_id), id_right: parent.id_right }
        } else {
            Node { key: parent.key, id_left: parent.id_left, id_right: Some(child_id) }
        };
        self.nodes[parent_id] = rewired;

        proof {
            assert forall|i: int| 0 <= i < self@.len() implies #[trigger] links_forward(
                self@,
                i,
            ) by {
                if i < old(self)@.len() && i != parent_id {
                    assert(links_forward(old(self)@, i));
                }
                if i == parent_id {
                    assert(links_forward(old(self)@, i));
                }
            }
        }

        child_id
    }

    /// Like `add_node`, but checks its own preconditions: on a missing parent
    /// or an occupied slot it leaves the tree entirely unchanged and returns
    /// `None`; otherwise it attaches the node and returns its index.
    pub fn try_add_node(&mut self, parent_id: usize, key: u32, is_left: bool) -> (r: Option<
        usize,
    >)
        requires
            old(self).wf(),
        ensures
            final(self).wf(),
            r is Some <==> parent_id < old(self)@.len() && old(self).slot_free(parent_id, is_left),
            r is None ==> final(self)@ == old(self)@,
            r matches Some(child_id) ==> attached(
                old(self)@,
                final(self)@,
                parent_id,
                key,
                is_left,
                child_id,
            ),
    {
        if parent_id >= self.nodes.len() {
            return None;
        }
        let occupied = if is_left {
            self.nodes[parent_id].id_left.is_some()
        } else {
            self.nodes[parent_id].id_right.is_some()
        };
        if occupied {
            return None;
        }
        Some(self.add_node(parent_id, key, is_left))
    }

    /// The sum of every key of the tree; zero for an empty tree.  The whole
    /// sum must fit the result width.
    pub fn sum(&self) -> (r: u32)
        requires
            self.wf(),
            tree_sum(self@) <= u32::MAX,
        ensures
            r == tree_sum(self@),
    {
        if self.nodes.len() == 0 {
            0
        } else {
            self.rec_sum(Some(0))
        }
    }

    /// The sum of the subtree hanging off `node_id`, an optional link as the
    /// nodes store it; an absent link sums to zero.
    fn rec_sum(&self, node_id: Option<usize>) -> (r: u32)
        requires
            self.wf(),
            node_id matches Some(id) ==> id < self@.len() && subtree_sum(self@, id as int)
                <= u32::MAX,
        ensures
            r == link_sum(self@, node_id),
        decreases (match node_id {
            Some(id) => self@.len() - id,
            None => 0,
        }),
    {
        if let Some(id) = node_id {
            let node = self.nodes[id];
            proof {
                assert(links_forward(self@, id as int));
                if let Some(l) = node.id_left {
                    lemma_subtree_sum_nonneg(self@, l as int);
                }
                if let Some(r) = node.id_right {
                    lemma_subtree_sum_nonneg(self@, r as int);
                }
            }
            let sum_left = self.rec_sum(node.id_left);
            let sum_right = self.rec_sum(node.id_right);
            sum_left + sum_right + node.key
        } else {
            0
        }
    }

    /// Whether the tree satisfies the strict binary-search-tree property; an
    /// empty tree does vacuously.
    pub fn is_bst(&self) -> (r: bool)
        requires
            self.wf(),
        ensures
            r == bst(self@),
    {
        if self.nodes.len() == 0 {
            return true;
        }
        self.check_bst(0).0
    }

    /// The least of three values.
    pub fn get_min(first: u32, second: u32, third: u32) -> (r: u32)
        ensures
            r == min3(first as int, second as int, third as int),
    {
        let mut m = first;
        if second < m {
            m = second;
        }
        if third < m {
            m = third;
        }
        m
    }

    /// The greatest of three values.
    pub fn get_max(first: u32, second: u32, third: u32) -> (r: u32)
        ensures
            r == max3(first as int, second as int, third as int),
    {
        let mut m = first;
        if second > m {
            m = second;
        }
        if third > m {
            m = third;
        }
        m
    }

    /// One bottom-up pass over the subtree rooted at `node_id`: whether that
    /// subtree is a strict BST, together with its least and greatest key, so
    /// that the caller can compare against extrema without a second walk.  An
    /// absent child constrains nothing.
    pub fn check_bst(&self, node_id: usize) -> (r: (bool, u32, u32))
        requires
            self.wf(),
            node_id < self@.len(),
        ensures
            r.0 == bst_at(self@, node_id as int),
            r.1 == subtree_min(self@, node_id as int),
            r.2 == subtree_max(self@, node_id as int),
        decreases self@.len() - node_id,
    {
        let node = self.nodes[node_id];
        proof {
            assert(links_forward(self@, node_id as int));
        }

        let (dx_ok, dx_min, dx_max) = match node.id_right {
            Some(dx) => {
                let t = self.check_bst(dx);
                (t.0 && t.1 > node.key, t.1, t.2)
            },
            None => (true, node.key, node.key),
        };
        let (sx_ok, sx_min, sx_max) = match node.id_left {
            Some(sx) => {
                let t = self.check_bst(sx);
                (t.0 && t.2 < node.key, t.1, t.2)
            },
            None => (true, node.key, node.key),
        };

        proof {
            let s = self@;
            let i = node_id as int;
            match s[i].id_left {
                Some(sx) => {
                    lemma_subtree_extrema(s, sx as int);
                    if subtree_max(s, sx as int) < s[i].key {
                        assert(keys_below(s, sx as int, s[i].key));
                    } else {
                        let jw = choose|j: int|
                            0 <= j < s.len() && #[trigger] in_subtree(s, sx as int, j) && s[j].key
                                == subtree_max(s, sx as int);
                        assert(!keys_below(s, sx as int, s[i].key));
                    }
                },
                None => (),
            }
            match s[i].id_right {
                Some(dx) => {
                    lemma_subtree_extrema(s, dx as int);
                    if subtree_min(s, dx as int) > s[i].key {
                        assert(keys_above(s, dx as int, s[i].key));
                    } else {
                        let jw = choose|j: int|
                            0 <= j < s.len() && #[trigger] in_subtree(s, dx as int, j) && s[j].key
                                == subtree_min(s, dx as int);
                        assert(!keys_above(s, dx as int, s[i].key));
                    }
                },
                None => (),
            }
        }

        (
            sx_ok && dx_ok,
            Self::get_min(node.key, dx_min, sx_min),
            Self::get_max(node.key, dx_max, sx_max),
        )
    }

    /// The maximum sum of keys along any simple downward-joining path in the
    /// tree; zero for an empty tree.  The whole key sum must fit the result
    /// width, which bounds every path sum.
    pub fn max_path_sum(&self) -> (r: u32)
        requires
            self.wf(),
            tree_sum(self@) <= u32::MAX,
        ensures
            r == max_path(self@),
    {
        if self.nodes.len() == 0 {
            return 0;
        }
        self.get_max_path(0).1
    }

    /// One pass over the subtree rooted at `node_id`: the best downward
    /// branch starting at that node, and the best joined path anywhere in the
    /// subtree, so that the caller combines both without a second walk.
    pub fn get_max_path(&self, node_id: usize) -> (r: (u32, u32))
        requires
            self.wf(),
            node_id < self@.len(),
            subtree_sum(self@, node_id as int) <= u32::MAX,
        ensures
            r.0 == down_best(self@, node_id as int),
            r.1 == path_best(self@, node_id as int),
        decreases self@.len() - node_id,
    {
        let node = self.nodes[node_id];
        proof {
            assert(links_forward(self@, node_id as int));
            match node.id_left {
                Some(sx) => {
                    lemma_path_bounds(self@, sx as int);
                    lemma_subtree_sum_nonneg(self@, sx as int);
                },
                None => (),
            }
            match node.id_right {
                Some(dx) => {
                    lemma_path_bounds(self@, dx as int);
                    lemma_subtree_sum_nonneg(self@, dx as int);
                },
                None => (),
            }
        }

        if node.id_left.is_none() && node.id_right.is_none() {
            return (node.key, node.key);
        }

        let sx = match node.id_left {
            Some(sx_id) => self.get_max_path(sx_id),
            None => (0u32, 0u32),
        };
        let dx = match node.id_right {
            Some(dx_id) => self.get_max_path(dx_id),
            None => (0u32, 0u32),
        };

        let to_leaf = node.key + (if sx.0 > dx.0 {
            sx.0
        } else {
            dx.0
        });
        let through = node.key + sx.0 + dx.0;
        let side = if sx.1 > dx.1 {
            sx.1
        } else {
            dx.1
        };
        let best = if through > side {
            through
        } else {
            side
        };
        (to_leaf, best)
    }
}

impl View for Tree {
    type V = Seq<Node>;

    open spec fn view(&self) -> Seq<Node> {
        self.arena()
    }
}

} // verus!
